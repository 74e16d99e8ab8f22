//! What a simple command does.
//!
//! The shell decides; its caller opens the files, starts the processes, and
//! reports back. A decision is a [`Plan`].

use vstd::prelude::*;

use crate::alias::{bad_alias, build_alias_invocation, invocation_tree};
use crate::assign::{
    assignment, law_assigned_value_expands_as_written, law_assignments_are_exactly_these,
    parse_assignment,
};
use crate::ast::{Cmd, Node, Redir, SimpleCommand, Tree};
use crate::builtin::State;
use crate::exit::{
    byte_written, exit_message, exit_requested, exit_status, law_exit_code_is_the_first_argument,
    leaves,
};
use crate::expand::{expansion, plain_name};
use crate::glob::lists_any;
use crate::parser::parsed;
use crate::path::{expand_tilde, home_in, looks_like_path_token, path_like, tilde_expanded};
use crate::redirect::{
    error_file, error_sink, folded, last_where, law_last_error_wins, law_last_input_wins,
    law_last_output_wins, law_other_streams_stay, output_sink, output_word, sets_errors, text_in,
    Redirects, Sink, Streams, Target,
};
use crate::shell::Shell;
use crate::text::{same, texts};
use crate::word::{copy_words, text_of, Part, RunKind, Word};
use crate::words::{law_plain_words_become_their_expansions, stands_for_itself, words_become};

verus! {

/// What is to be done for a simple command.
#[derive(Debug)]
pub enum Plan {
    /// Run this tree in its place, without expanding aliases again.
    Subtree(Node),
    /// Nothing is left to do but to say `message` on the error stream of the
    /// shell, if it is not empty. `status` is the status of the command.
    Done { status: i32, message: String },
    /// Run the `cd` builtin on `target`, with the streams of the shell.
    ChangeDir { target: String },
    /// Run a builtin.
    Builtin { name: String, args: Vec<String>, stdout: Target, stderr: Target },
    /// Start a program.
    External {
        name: String,
        args: Vec<String>,
        stdin: Option<String>,
        stdout: Target,
        stderr: Target,
    },
}

/// The model of a [`Plan`].
#[verifier::ext_equal]
pub enum Deed {
    Subtree(Tree),
    Done { status: i32, message: Seq<char> },
    ChangeDir { target: Seq<char> },
    Builtin { name: Seq<char>, args: Seq<Seq<char>>, stdout: Sink, stderr: Sink },
    External {
        name: Seq<char>,
        args: Seq<Seq<char>>,
        stdin: Option<Seq<char>>,
        stdout: Sink,
        stderr: Sink,
    },
}

impl View for Plan {
    type V = Deed;

    open spec fn view(&self) -> Deed {
        match self {
            Plan::Subtree(node) => Deed::Subtree(node@),
            Plan::Done { status, message } => Deed::Done { status: *status, message: message@ },
            Plan::ChangeDir { target } => Deed::ChangeDir { target: target@ },
            Plan::Builtin { name, args, stdout, stderr } => Deed::Builtin {
                name: name@,
                args: texts(args@),
                stdout: stdout@,
                stderr: stderr@,
            },
            Plan::External { name, args, stdin, stdout, stderr } => Deed::External {
                name: name@,
                args: texts(args@),
                stdin: text_in(*stdin),
                stdout: stdout@,
                stderr: stderr@,
            },
        }
    }
}

/// The commands that run inside the shell.
pub open spec fn builtin_name(name: Seq<char>) -> bool {
    ||| name == "cd"@
    ||| name == "exit"@
    ||| name == "alias"@
    ||| name == "unalias"@
    ||| name == "source"@
    ||| name == "."@
    ||| name == "funcsave"@
    ||| name == "export"@
    ||| name == "unset"@
    ||| name == "pwd"@
}

/// Whether a command must run inside the shell rather than be started as a
/// program.
pub fn is_builtin(name: &str) -> (r: bool)
    ensures
        r == builtin_name(name@),
{
    same(name, "cd") || same(name, "exit") || same(name, "alias") || same(name, "unalias") || same(
        name,
        "source",
    ) || same(name, ".") || same(name, "funcsave") || same(name, "export") || same(name, "unset")
        || same(name, "pwd")
}

/// Whether the final words of a command are a lone directory reference, which
/// changes into that directory if there is one.
pub open spec fn may_be_dir(words: Seq<Seq<char>>) -> bool {
    words.len() == 1 && path_like(words[0])
}

/// What a command does whose words have become `words`. `is_dir` tells whether
/// the directory that a lone reference names is there.
pub open spec fn dispatched(words: Seq<Seq<char>>, streams: Streams, is_dir: bool) -> Deed {
    if words.len() == 0 {
        Deed::Done { status: 1, message: "lush: syntax error: missing command"@ }
    } else if may_be_dir(words) && is_dir {
        Deed::ChangeDir { target: words[0] }
    } else if words[0] == "exit"@ {
        Deed::Done {
            status: exit_status(words.skip(1)),
            message: exit_message(words.skip(1)),
        }
    } else if builtin_name(words[0]) {
        Deed::Builtin {
            name: words[0],
            args: words.skip(1),
            stdout: output_sink(streams),
            stderr: error_sink(streams),
        }
    } else {
        Deed::External {
            name: words[0],
            args: words.skip(1),
            stdin: streams.stdin,
            stdout: output_sink(streams),
            stderr: error_sink(streams),
        }
    }
}

/// What an invocation of an alias does.
pub open spec fn invoked(name: Seq<char>, value: Seq<char>, cmd: Cmd) -> Deed {
    match parsed(value) {
        Ok(Some(tree)) => Deed::Subtree(
            invocation_tree(tree, cmd.words.skip(1), cmd.redirects),
        ),
        Ok(None) => Deed::Done { status: 0, message: Seq::empty() },
        Err(e) => Deed::Done { status: 1, message: "lush: "@ + bad_alias(name, e) },
    }
}

/// Whether the first word of `cmd` names an alias.
pub open spec fn invokes(aliases: Map<Seq<char>, Seq<char>>, cmd: Cmd) -> bool {
    cmd.words.len() > 0 && aliases.dom().contains(text_of(cmd.words[0]))
}

/// Whether `is_dir` can answer `answer` about the directory `path`.
pub open spec fn says_dir<D: Fn(&str) -> bool>(is_dir: D, path: Seq<char>, answer: bool) -> bool {
    exists|p: &str| p@ == path && #[trigger] call_ensures(is_dir, (p,), answer)
}

/// Whether `is_dir` takes every path.
pub open spec fn tells_any<D: Fn(&str) -> bool>(is_dir: D) -> bool {
    forall|p: &str| call_requires(is_dir, (p,))
}

/// Whether `deed` is what a command can do that neither invokes an alias nor
/// assigns, when the variables are `scope` and the environment is `env`.
pub open spec fn runs_as<L: Fn(&str) -> Vec<(String, bool)>, D: Fn(&str) -> bool>(
    list: L,
    is_dir: D,
    scope: Map<Seq<char>, Seq<char>>,
    env: Map<Seq<char>, Seq<char>>,
    cmd: Cmd,
    deed: Deed,
) -> bool {
    exists|words: Seq<Seq<char>>, answer: bool|
        #![trigger words_become(list, scope, cmd.words, words), dispatched(
            words,
            folded(cmd.redirects, scope),
            answer,
        )]
        {
            &&& words_become(list, scope, cmd.words, words)
            &&& may_be_dir(words) ==> says_dir(
                is_dir,
                tilde_expanded(words[0], home_in(env)),
                answer,
            )
            &&& deed == dispatched(words, folded(cmd.redirects, scope), answer)
        }
}

/// Whether a simple command can take the shell from one state to another and come to
/// `deed`: as an invocation of an alias, or else as an assignment, or else as
/// whatever its words become.
pub open spec fn command_does<L: Fn(&str) -> Vec<(String, bool)>, D: Fn(&str) -> bool>(
    list: L,
    is_dir: D,
    expand_aliases: bool,
    cmd: Cmd,
    before: State,
    after: State,
    deed: Deed,
) -> bool {
    let scope = before.env.union_prefer_right(before.vars);
    if expand_aliases && invokes(before.aliases, cmd) {
        let name = text_of(cmd.words[0]);
        after == before && deed == invoked(name, before.aliases[name], cmd)
    } else {
        match assignment(cmd.words) {
            Some((name, value)) => {
                &&& after == (State {
                    vars: before.vars.insert(name, expansion(scope, value)),
                    ..before
                })
                &&& deed == (Deed::Done { status: 0, message: Seq::empty() })
            },
            None => after == before && runs_as(list, is_dir, scope, before.env, cmd, deed),
        }
    }
}

/// The tail of `v`, as a new vector.
pub fn tail(v: &Vec<String>) -> (r: Vec<String>)
    requires
        v@.len() > 0,
    ensures
        texts(r@) == texts(v@).skip(1),
{
    let mut out: Vec<String> = Vec::new();
    let ghost all = texts(v@);
    let mut i: usize = 1;
    assert(texts(out@) =~= all.subrange(1, 1));
    while i < v.len()
        invariant
            1 <= i <= v@.len(),
            all == texts(v@),
            texts(out@) == all.subrange(1, i as int),
        decreases v@.len() - i,
    {
        let ghost done = texts(out@);
        out.push(v[i].clone());
        assert(texts(out@) =~= done.push(all[i as int]));
        i = i + 1;
    }
    assert(all.subrange(1, i as int) =~= all.skip(1));
    out
}

/// Decides what a command does whose words have become `words`.
pub fn dispatch(words: Vec<String>, redirects: &Redirects, is_dir: bool) -> (r: Plan)
    ensures
        r@ == dispatched(texts(words@), redirects@, is_dir),
{
    let ghost all = texts(words@);
    if words.len() == 0 {
        return Plan::Done {
            status: 1,
            message: "lush: syntax error: missing command".to_owned(),
        };
    }
    assert(all[0] == words@[0]@);
    let name: String = words[0].clone();
    if words.len() == 1 && looks_like_path_token(&name) && is_dir {
        return Plan::ChangeDir { target: name };
    }
    let args: Vec<String> = tail(&words);
    if same(&name, "exit") {
        let (status, message) = exit_requested(&args);
        Plan::Done { status, message }
    } else if is_builtin(&name) {
        Plan::Builtin {
            name,
            args,
            stdout: redirects.stdout_target(),
            stderr: redirects.stderr_target(),
        }
    } else {
        let stdin: Option<String> = match &redirects.stdin {
            Some(path) => Some(path.clone()),
            None => None,
        };
        Plan::External {
            name,
            args,
            stdin,
            stdout: redirects.stdout_target(),
            stderr: redirects.stderr_target(),
        }
    }
}

/// Decides what an invocation of the alias `name` does.
pub fn exec_alias_invocation(name: &str, value: &str, invoking: &SimpleCommand) -> (r: Plan)
    requires
        invoking.words@.len() > 0,
    ensures
        r@ == invoked(name@, value@, invoking@),
{
    let args: Vec<Word> = copy_words(&invoking.words, 1);
    match build_alias_invocation(name, value, &args, &invoking.redirects) {
        Ok(Some(node)) => Plan::Subtree(node),
        Ok(None) => Plan::Done { status: 0, message: String::new() },
        Err(e) => {
            let mut message: String = "lush: ".to_owned();
            message.append(&e);
            Plan::Done { status: 1, message }
        },
    }
}

impl Shell {
    /// The alias that the first word of a command names, and its value.
    pub fn alias_of(&self, words: &[Word]) -> (r: Option<(String, String)>)
        ensures
            r is Some == (words@.len() > 0 && self.aliases@.dom().contains(text_of(words@[0]@))),
            r is Some ==> (r->0).0@ == text_of(words@[0]@) && (r->0).1@ == self.aliases@[text_of(
                words@[0]@,
            )],
    {
        if words.len() == 0 {
            return None;
        }
        let name: String = words[0].text();
        match self.aliases.get(&name) {
            Some(value) => Some((name, value)),
            None => None,
        }
    }

    /// Decides what a simple command does. In this order: the alias that its
    /// first word names, if aliases are expanded; an assignment, which is made
    /// here; and then what its words become.
    pub fn exec_simple_command<L: Fn(&str) -> Vec<(String, bool)>, D: Fn(&str) -> bool>(
        &mut self,
        cmd: &SimpleCommand,
        expand_aliases: bool,
        list: &L,
        is_dir: &D,
    ) -> (r: Plan)
        requires
            lists_any(*list),
            tells_any(*is_dir),
        ensures
            final(self).aliases@ == old(self).aliases@,
            final(self).env@ == old(self).env@,
            command_does(
                *list,
                *is_dir,
                expand_aliases,
                cmd@,
                old(self).state(),
                final(self).state(),
                r@,
            ),
    {
        assert(cmd.words@.len() > 0 ==> cmd@.words[0] == cmd.words@[0]@);
        if expand_aliases {
            if let Some((name, value)) = self.alias_of(&cmd.words) {
                return exec_alias_invocation(&name, &value, cmd);
            }
        }
        if let Some((name, value)) = parse_assignment(&cmd.words) {
            let text: String = self.expand(&value);
            self.vars.insert(name, text);
            return Plan::Done { status: 0, message: String::new() };
        }
        let words: Vec<String> = self.expand_command_words(&cmd.words, list);
        let redirects: Redirects = self.redirects_from_ast(&cmd.redirects);
        let ghost all = texts(words@);
        let mut answer: bool = false;
        if words.len() == 1 && looks_like_path_token(&words[0]) {
            assert(all[0] == words@[0]@);
            let path: String = expand_tilde(&words[0], &self.home());
            let p: &str = path.as_str();
            answer = is_dir(p);
            assert(call_ensures(*is_dir, (p,), answer));
            assert(says_dir(*is_dir, tilde_expanded(all[0], home_in(self.env@)), answer));
        }
        dispatch(words, &redirects, answer)
    }
}

// ---------------------------------------------------------------------
// Laws
// ---------------------------------------------------------------------

/// Without alias expansion no command becomes a tree again. The tree of an alias
/// runs without it, so expansion is one level deep and ends.
pub proof fn law_expansion_is_one_level<
    L: Fn(&str) -> Vec<(String, bool)>,
    D: Fn(&str) -> bool,
>(
    list: L,
    is_dir: D,
    scope: Map<Seq<char>, Seq<char>>,
    env: Map<Seq<char>, Seq<char>>,
    cmd: Cmd,
    deed: Deed,
)
    requires
        runs_as(list, is_dir, scope, env, cmd, deed),
    ensures
        !(deed is Subtree),
{
}

/// Only a lone directory reference changes the directory by itself; a bare name
/// never does, even if there is such a directory.
pub proof fn law_only_paths_change_directory(
    words: Seq<Seq<char>>,
    streams: Streams,
    is_dir: bool,
)
    requires
        dispatched(words, streams, is_dir) is ChangeDir,
    ensures
        is_dir,
        words.len() == 1,
        path_like(words[0]),
{
}

/// A command whose first word is `exit` leaves, whatever its arguments are.
pub proof fn law_exit_is_obeyed(words: Seq<Seq<char>>, streams: Streams, is_dir: bool)
    requires
        words.len() > 0,
        words[0] == "exit"@,
    ensures
        dispatched(words, streams, is_dir) is Done,
        leaves(dispatched(words, streams, is_dir)->Done_status),
{
    reveal_strlit("exit");
    reveal_strlit(".");
    reveal_strlit("..");
    assert(!path_like(words[0])) by {
        assert("exit"@.len() == 4);
        assert forall|k: int| 0 <= k < 4 implies "exit"@[k] != '/' by {}
    }
}

/// The names of the builtins.
pub open spec fn builtin_names() -> Seq<Seq<char>> {
    seq![
        "cd"@,
        "pwd"@,
        "exit"@,
        "alias"@,
        "unalias"@,
        "source"@,
        "."@,
        "funcsave"@,
        "export"@,
        "unset"@,
    ]
}

/// The builtins are `cd`, `pwd`, `exit`, `alias`, `unalias`, `source`, `.`,
/// `funcsave`, `export` and `unset`, and no others.
pub proof fn law_these_are_the_builtins(name: Seq<char>)
    ensures
        builtin_name(name) <==> builtin_names().contains(name),
{
    let all = builtin_names();
    assert(all[0] == "cd"@ && all[1] == "pwd"@ && all[2] == "exit"@ && all[3] == "alias"@);
    assert(all[4] == "unalias"@ && all[5] == "source"@ && all[6] == "."@);
    assert(all[7] == "funcsave"@ && all[8] == "export"@ && all[9] == "unset"@);
    if all.contains(name) {
        let k = choose|k: int| 0 <= k < all.len() && all[k] == name;
        assert(0 <= k < 10);
    }
}

/// A command whose first word is no builtin, and that is not a lone reference to a
/// directory, starts the program that the first word names, with all the other
/// words as its arguments, in order.
pub proof fn law_other_words_start_programs(
    words: Seq<Seq<char>>,
    streams: Streams,
    is_dir: bool,
)
    requires
        words.len() > 0,
        !builtin_names().contains(words[0]),
        !is_dir || words.len() > 1 || !path_like(words[0]),
    ensures
        dispatched(words, streams, is_dir) is External,
        dispatched(words, streams, is_dir)->External_name == words[0],
        seq![words[0]] + dispatched(words, streams, is_dir)->External_args == words,
{
    law_these_are_the_builtins(words[0]);
    let all = builtin_names();
    assert(all[2] == "exit"@);
    assert(words[0] != "exit"@) by {
        if words[0] == "exit"@ {
            assert(all.contains(all[2]));
        }
    }
    assert(seq![words[0]] + words.skip(1) =~= words);
}

/// A command whose first word is a builtin other than `exit` runs it, with all the
/// other words as its arguments, in order, and with the streams that a program
/// would get.
pub proof fn law_builtins_run_in_the_shell(
    words: Seq<Seq<char>>,
    streams: Streams,
    is_dir: bool,
    program: Seq<Seq<char>>,
)
    requires
        words.len() > 0,
        builtin_names().contains(words[0]),
        words[0] != "exit"@,
        !is_dir || words.len() > 1 || !path_like(words[0]),
        dispatched(program, streams, is_dir) is External,
    ensures
        dispatched(words, streams, is_dir) is Builtin,
        dispatched(words, streams, is_dir)->Builtin_name == words[0],
        seq![words[0]] + dispatched(words, streams, is_dir)->Builtin_args == words,
        dispatched(words, streams, is_dir)->Builtin_stdout == dispatched(
            program,
            streams,
            is_dir,
        )->External_stdout,
        dispatched(words, streams, is_dir)->Builtin_stderr == dispatched(
            program,
            streams,
            is_dir,
        )->External_stderr,
{
    law_these_are_the_builtins(words[0]);
    assert(seq![words[0]] + words.skip(1) =~= words);
}

/// A lone reference to a directory that is there changes into it.
pub proof fn law_lone_directory_changes_into_it(word: Seq<char>, streams: Streams)
    requires
        word == "."@ || word == ".."@ || (word.len() > 0 && word[0] == '~') || word.contains('/'),
    ensures
        dispatched(seq![word], streams, true) == (Deed::ChangeDir { target: word }),
{
}

/// A program reads from the file that its last `<` names, and from where the shell
/// reads if there is none.
pub proof fn law_program_reads_its_last_input(
    words: Seq<Seq<char>>,
    redirs: Seq<Redir>,
    env: Map<Seq<char>, Seq<char>>,
    is_dir: bool,
    p: int,
)
    requires
        dispatched(words, folded(redirs, env), is_dir) is External,
    ensures
        last_where(redirs, |r: Redir| r is In, p) ==> dispatched(
            words,
            folded(redirs, env),
            is_dir,
        )->External_stdin == Some(expansion(env, redirs[p]->In_0)),
        (forall|k: int| 0 <= k < redirs.len() ==> !(#[trigger] redirs[k] is In)) ==> dispatched(
            words,
            folded(redirs, env),
            is_dir,
        )->External_stdin is None,
{
    if last_where(redirs, |r: Redir| r is In, p) {
        law_last_input_wins(redirs, env, p);
    }
    law_other_streams_stay(redirs, env);
}

/// A program writes to the file that its last `>`, `>>` or `&>` names, which only
/// `>>` appends to, and to where the shell writes if there is none.
pub proof fn law_program_writes_its_last_output(
    words: Seq<Seq<char>>,
    redirs: Seq<Redir>,
    env: Map<Seq<char>, Seq<char>>,
    is_dir: bool,
    p: int,
)
    requires
        dispatched(words, folded(redirs, env), is_dir) is External,
    ensures
        last_where(redirs, |r: Redir| r is Out || r is Append || r is Both, p) ==> dispatched(
            words,
            folded(redirs, env),
            is_dir,
        )->External_stdout == (Sink::File {
            path: expansion(env, output_word(redirs[p])->0),
            append: redirs[p] is Append,
        }),
        (forall|k: int|
            0 <= k < redirs.len() ==> !(#[trigger] redirs[k] is Out || redirs[k] is Append
                || redirs[k] is Both)) ==> dispatched(
            words,
            folded(redirs, env),
            is_dir,
        )->External_stdout == Sink::Inherit,
{
    let f = |r: Redir| r is Out || r is Append || r is Both;
    let g = |r: Redir| output_word(r) is Some;
    if last_where(redirs, f, p) {
        assert(f(redirs[p]));
        assert(g(redirs[p]));
        assert forall|k: int| p < k < redirs.len() implies !g(#[trigger] redirs[k]) by {
            assert(!f(redirs[k]));
        }
        law_last_output_wins(redirs, env, p);
    }
    law_other_streams_stay(redirs, env);
}

/// The errors of a program go to the file that its last `2>`, `2>>` or `&>` names,
/// unless a `2>&1` comes behind it: then they go where the output goes. Without any
/// of these they go to the error stream of the shell.
pub proof fn law_program_errors_follow_the_last(
    words: Seq<Seq<char>>,
    redirs: Seq<Redir>,
    env: Map<Seq<char>, Seq<char>>,
    is_dir: bool,
    p: int,
)
    requires
        dispatched(words, folded(redirs, env), is_dir) is External,
    ensures
        ({
            let deed = dispatched(words, folded(redirs, env), is_dir);
            let place = match deed->External_stderr {
                Sink::Output => deed->External_stdout,
                own => own,
            };
            &&& last_where(redirs, |r: Redir| sets_errors(r), p) ==> place == (
            match error_file(redirs[p], env) {
                Some(file) => file,
                None => deed->External_stdout,
            })
            &&& (forall|k: int| 0 <= k < redirs.len() ==> !sets_errors(#[trigger] redirs[k]))
                ==> deed->External_stderr == Sink::Inherit
            &&& deed->External_stderr is Output ==> deed->External_stdout is File
        }),
{
    if last_where(redirs, |r: Redir| sets_errors(r), p) {
        law_last_error_wins(redirs, env, p);
        let f = |r: Redir| sets_errors(r);
        assert(f(redirs[p]));
    }
    law_other_streams_stay(redirs, env);
}

/// A command whose words each stand for one argument, and the first of which comes
/// out as neither a builtin nor a directory reference, starts the program that the
/// first comes out as, with what the others come out as for its arguments.
pub proof fn law_plain_command_starts_its_program<
    L: Fn(&str) -> Vec<(String, bool)>,
    D: Fn(&str) -> bool,
>(
    list: L,
    is_dir: D,
    scope: Map<Seq<char>, Seq<char>>,
    env: Map<Seq<char>, Seq<char>>,
    cmd: Cmd,
    deed: Deed,
)
    requires
        runs_as(list, is_dir, scope, env, cmd, deed),
        cmd.words.len() > 0,
        forall|k: int|
            0 <= k < cmd.words.len() ==> stands_for_itself(scope, #[trigger] cmd.words[k]),
        !builtin_names().contains(expansion(scope, cmd.words[0])),
        !path_like(expansion(scope, cmd.words[0])),
    ensures
        deed is External,
        seq![deed->External_name] + deed->External_args == cmd.words.map_values(
            |w: Seq<Part>| expansion(scope, w),
        ),
        exists|words: Seq<Seq<char>>| deed == #[trigger] dispatched(
            words,
            folded(cmd.redirects, scope),
            false,
        ),
{
    let streams = folded(cmd.redirects, scope);
    let (words, answer) = choose|words: Seq<Seq<char>>, answer: bool|
        #![trigger words_become(list, scope, cmd.words, words), dispatched(
            words,
            folded(cmd.redirects, scope),
            answer,
        )]
        {
            &&& words_become(list, scope, cmd.words, words)
            &&& may_be_dir(words) ==> says_dir(
                is_dir,
                tilde_expanded(words[0], home_in(env)),
                answer,
            )
            &&& deed == dispatched(words, folded(cmd.redirects, scope), answer)
        };
    law_plain_words_become_their_expansions(list, scope, cmd.words, words);
    law_other_words_start_programs(words, streams, answer);
    assert(deed == dispatched(words, streams, false));
}

/// Whether a lone directory reference changes the directory is asked about the path
/// with its `~` expanded; if there is no such directory, the word names a program.
pub proof fn law_directory_is_asked_for<
    L: Fn(&str) -> Vec<(String, bool)>,
    D: Fn(&str) -> bool,
>(
    list: L,
    is_dir: D,
    scope: Map<Seq<char>, Seq<char>>,
    env: Map<Seq<char>, Seq<char>>,
    cmd: Cmd,
    deed: Deed,
    word: Seq<char>,
)
    requires
        runs_as(list, is_dir, scope, env, cmd, deed),
        forall|words: Seq<Seq<char>>| #[trigger]
            words_become(list, scope, cmd.words, words) ==> words == seq![word],
        path_like(word),
        !builtin_names().contains(word),
    ensures
        deed == (Deed::ChangeDir { target: word }) || (deed is External && deed->External_name
            == word),
        deed is ChangeDir ==> says_dir(is_dir, tilde_expanded(word, home_in(env)), true),
        deed is External ==> says_dir(is_dir, tilde_expanded(word, home_in(env)), false),
{
    let (words, answer) = choose|words: Seq<Seq<char>>, answer: bool|
        #![trigger words_become(list, scope, cmd.words, words), dispatched(
            words,
            folded(cmd.redirects, scope),
            answer,
        )]
        {
            &&& words_become(list, scope, cmd.words, words)
            &&& may_be_dir(words) ==> says_dir(
                is_dir,
                tilde_expanded(words[0], home_in(env)),
                answer,
            )
            &&& deed == dispatched(words, folded(cmd.redirects, scope), answer)
        };
    assert(words == seq![word]);
    if !answer {
        law_other_words_start_programs(words, folded(cmd.redirects, scope), false);
    }
}

/// Nothing to run is reported with status 1, and an alias whose value is empty does
/// nothing, with status 0; one whose value does not parse fails with status 1.
pub proof fn law_nothing_to_run(
    streams: Streams,
    is_dir: bool,
    name: Seq<char>,
    value: Seq<char>,
    cmd: Cmd,
)
    ensures
        dispatched(Seq::empty(), streams, is_dir) == (Deed::Done {
            status: 1,
            message: "lush: syntax error: missing command"@,
        }),
        parsed(value) == Ok::<Option<Tree>, Seq<char>>(None) ==> invoked(name, value, cmd) == (
        Deed::Done { status: 0, message: Seq::empty() }),
        parsed(value) matches Err(e) ==> invoked(name, value, cmd) is Done && invoked(
            name,
            value,
            cmd,
        )->Done_status == 1 && invoked(name, value, cmd)->Done_message == "lush: alias '"@ + name
            + "': "@ + e,
{
    reveal_strlit("lush: ");
    reveal_strlit("alias '");
    reveal_strlit("lush: alias '");
    if let Err(e) = parsed(value) {
        assert("lush: "@ + "alias '"@ =~= "lush: alias '"@);
        assert(invoked(name, value, cmd)->Done_message =~= "lush: alias '"@ + name + "': "@ + e);
    }
}

/// An invoked alias runs the tree of its value, with the words of the command behind
/// its first and the redirections of the command.
pub proof fn law_alias_runs_its_value(
    name: Seq<char>,
    value: Seq<char>,
    cmd: Cmd,
    tree: Tree,
)
    requires
        cmd.words.len() > 0,
        parsed(value) == Ok::<Option<Tree>, Seq<char>>(Some(tree)),
    ensures
        exists|args: Seq<Seq<Part>>|
            seq![cmd.words[0]] + args == cmd.words && invoked(name, value, cmd) == Deed::Subtree(
                #[trigger] invocation_tree(tree, args, cmd.redirects),
            ),
{
    let args = cmd.words.skip(1);
    assert(seq![cmd.words[0]] + args =~= cmd.words);
    assert(invoked(name, value, cmd) == Deed::Subtree(
        invocation_tree(tree, args, cmd.redirects),
    ));
}

/// `exit` leaves with status 0, `exit n` with the byte that `n` writes, and `exit`
/// with anything else with status 2. It says something only in the last case.
pub proof fn law_exit_leaves_with_its_code(
    args: Seq<Seq<char>>,
    streams: Streams,
    is_dir: bool,
)
    ensures
        ({
            let deed = dispatched(seq!["exit"@] + args, streams, is_dir);
            &&& deed is Done
            &&& args.len() == 0 ==> deed->Done_status == 256 && deed->Done_message.len() == 0
            &&& args.len() > 0 && byte_written(args[0]) is Some ==> deed->Done_status == 256
                + byte_written(args[0])->0 && deed->Done_message.len() == 0
            &&& args.len() > 0 && byte_written(args[0]) is None ==> deed->Done_status == 258
                && deed->Done_message == "lush: exit: "@ + args[0] + ": numeric argument required"@
        }),
{
    let words = seq!["exit"@] + args;
    assert(words[0] == "exit"@);
    assert(words.skip(1) =~= args);
    law_exit_is_obeyed(words, streams, is_dir);
    reveal_strlit("exit");
    reveal_strlit(".");
    reveal_strlit("..");
    assert(!path_like(words[0])) by {
        assert("exit"@.len() == 4);
        assert forall|k: int| 0 <= k < 4 implies "exit"@[k] != '/' by {}
    }
    if args.len() > 0 {
        law_exit_code_is_the_first_argument(args);
    }
}

/// A command invokes an alias exactly if the text of its first word, however that is
/// quoted, names one.
pub proof fn law_first_word_invokes(aliases: Map<Seq<char>, Seq<char>>, cmd: Cmd)
    ensures
        cmd.words.len() == 0 ==> !invokes(aliases, cmd),
        cmd.words.len() > 0 ==> (invokes(aliases, cmd) <==> aliases.dom().contains(
            text_of(cmd.words[0]),
        )),
{
}

/// `NAME=value` alone gives the shell variable `NAME` the value, expanded as it is
/// quoted, and nothing else changes. It succeeds and says nothing.
pub proof fn law_assignment_sets_one_variable<
    L: Fn(&str) -> Vec<(String, bool)>,
    D: Fn(&str) -> bool,
>(
    list: L,
    is_dir: D,
    name: Seq<char>,
    text: Seq<char>,
    more: Seq<Part>,
    cmd: Cmd,
    before: State,
    after: State,
    deed: Deed,
)
    requires
        plain_name(name),
        cmd.words == seq![
            seq![Part { kind: RunKind::Unquoted, text: name + seq!['='] + text }] + more,
        ],
        !before.aliases.dom().contains(text_of(cmd.words[0])),
        command_does(list, is_dir, true, cmd, before, after, deed),
    ensures
        after.aliases == before.aliases,
        after.env == before.env,
        after.vars == before.vars.insert(
            name,
            expansion(
                before.env.union_prefer_right(before.vars),
                seq![Part { kind: RunKind::Unquoted, text }] + more,
            ),
        ),
        deed is Done,
        deed->Done_status == 0,
        deed->Done_message.len() == 0,
{
    law_assigned_value_expands_as_written(
        before.env.union_prefer_right(before.vars),
        name,
        text,
        more,
    );
}

/// The first word of a command is looked up among the aliases before anything else,
/// unless it is part of an alias itself; what an alias comes to changes no variable.
pub proof fn law_aliases_come_first<L: Fn(&str) -> Vec<(String, bool)>, D: Fn(&str) -> bool>(
    list: L,
    is_dir: D,
    cmd: Cmd,
    before: State,
    after: State,
    deed: Deed,
)
    requires
        cmd.words.len() > 0,
        before.aliases.dom().contains(text_of(cmd.words[0])),
    ensures
        command_does(list, is_dir, true, cmd, before, after, deed) ==> after == before && deed
            == invoked(text_of(cmd.words[0]), before.aliases[text_of(cmd.words[0])], cmd),
        command_does(list, is_dir, false, cmd, before, after, deed) ==> !(deed is Subtree),
{
}

/// A command that neither names an alias nor assigns changes nothing by itself, and
/// does what its words become, read with the shell variables first and then the
/// environment.
pub proof fn law_other_commands_change_nothing<
    L: Fn(&str) -> Vec<(String, bool)>,
    D: Fn(&str) -> bool,
>(
    list: L,
    is_dir: D,
    expand_aliases: bool,
    cmd: Cmd,
    before: State,
    after: State,
    deed: Deed,
)
    requires
        command_does(list, is_dir, expand_aliases, cmd, before, after, deed),
        !expand_aliases || cmd.words.len() == 0 || !before.aliases.dom().contains(
            text_of(cmd.words[0]),
        ),
        cmd.words.len() != 1 || cmd.words[0].len() == 0 || cmd.words[0][0].kind
            != RunKind::Unquoted || forall|name: Seq<char>, rest: Seq<char>|
            #![trigger name + seq!['='] + rest]
            plain_name(name) ==> cmd.words[0][0].text != name + seq!['='] + rest,
    ensures
        after == before,
        runs_as(
            list,
            is_dir,
            before.env.union_prefer_right(before.vars),
            before.env,
            cmd,
            deed,
        ),
{
    law_assignments_are_exactly_these(cmd.words);
}

} // verus!
