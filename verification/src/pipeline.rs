//! What the stages of a pipeline do, and what the pipeline comes to.

use vstd::prelude::*;

use crate::alias::{
    bad_alias, command_with_args, extended, first_argv, insert_args_into_command, invocation_tree,
    law_call_keeps_operators, law_command_takes_arguments, no_argv, same_shape, tree_with_args,
};
use crate::ast::{
    commands_view, copy_commands, extend_redirects, Cmd, Node, Redir, SimpleCommand, Tree,
};
use crate::command::{
    builtin_name, builtin_names, dispatched, invoked, invokes, is_builtin,
    law_other_words_start_programs, law_these_are_the_builtins, tail, Deed,
};
use crate::exit::{
    child_status, code_or_one, exit_message, exit_requested, exit_status, leaves, EXIT_SENTINEL,
};
use crate::expand::expansion;
use crate::glob::lists_any;
use crate::parser::{parse, parsed};
use crate::redirect::{
    error_file, error_sink, folded, last_where, law_last_error_wins, law_last_input_wins,
    law_last_output_wins, law_other_streams_stay, output_sink, output_word, sets_errors, Redirects,
    Sink, Streams, Target,
};
use crate::shell::Shell;
use crate::text::{same, texts};
use crate::word::{copy_words, text_of, Part, Word};
use crate::words::{law_plain_words_become_their_expansions, stands_for_itself, words_become};

verus! {

// ---------------------------------------------------------------------
// One stage
// ---------------------------------------------------------------------

/// Where a stage reads from.
#[derive(Debug, PartialEq, Eq)]
pub enum Source {
    /// Where the shell itself reads from.
    Inherit,
    /// The output of the stage before.
    Pipe,
    /// A file.
    File(String),
}

/// Where a stage writes to.
#[derive(Debug, PartialEq, Eq)]
pub enum Outlet {
    /// Into the pipe to the next stage.
    Pipe,
    /// Anywhere else.
    To(Target),
}

/// What is to be done for a stage.
#[derive(Debug)]
pub enum StagePlan {
    /// The pipeline ends here with this status, once the stages already started
    /// have ended. `message` goes to the error stream of the shell, if it is
    /// not empty.
    Stop { status: i32, message: String },
    /// Run a builtin.
    Builtin { name: String, args: Vec<String>, out: Target, err: Target },
    /// Start a program.
    External {
        name: String,
        args: Vec<String>,
        stdin: Source,
        stdout: Outlet,
        stderr: Outlet,
    },
}

/// The model of a [`Source`].
#[verifier::ext_equal]
pub enum Feed {
    Inherit,
    Pipe,
    File(Seq<char>),
}

/// The model of an [`Outlet`].
#[verifier::ext_equal]
pub enum Drain {
    Pipe,
    To(Sink),
}

/// The model of a [`StagePlan`].
#[verifier::ext_equal]
pub enum StageDeed {
    Stop { status: i32, message: Seq<char> },
    Builtin { name: Seq<char>, args: Seq<Seq<char>>, out: Sink, err: Sink },
    External {
        name: Seq<char>,
        args: Seq<Seq<char>>,
        stdin: Feed,
        stdout: Drain,
        stderr: Drain,
    },
}

impl View for Source {
    type V = Feed;

    open spec fn view(&self) -> Feed {
        match self {
            Source::Inherit => Feed::Inherit,
            Source::Pipe => Feed::Pipe,
            Source::File(path) => Feed::File(path@),
        }
    }
}

impl View for Outlet {
    type V = Drain;

    open spec fn view(&self) -> Drain {
        match self {
            Outlet::Pipe => Drain::Pipe,
            Outlet::To(target) => Drain::To(target@),
        }
    }
}

impl View for StagePlan {
    type V = StageDeed;

    open spec fn view(&self) -> StageDeed {
        match self {
            StagePlan::Stop { status, message } => StageDeed::Stop {
                status: *status,
                message: message@,
            },
            StagePlan::Builtin { name, args, out, err } => StageDeed::Builtin {
                name: name@,
                args: texts(args@),
                out: out@,
                err: err@,
            },
            StagePlan::External { name, args, stdin, stdout, stderr } => StageDeed::External {
                name: name@,
                args: texts(args@),
                stdin: stdin@,
                stdout: stdout@,
                stderr: stderr@,
            },
        }
    }
}

/// The command that a stage comes to once its alias is dissolved. An alias of a
/// single command takes the place of the invocation; its own redirections come
/// first, so those of the stage win. Any other alias cannot be a stage.
pub open spec fn dissolved(
    aliases: Map<Seq<char>, Seq<char>>,
    cmd: Cmd,
    expand_aliases: bool,
) -> Result<Cmd, Seq<char>> {
    if expand_aliases && invokes(aliases, cmd) {
        let name = text_of(cmd.words[0]);
        match parsed(aliases[name]) {
            Ok(Some(Tree::Command(value))) => {
                let full = command_with_args(value, cmd.words.skip(1));
                Ok(Cmd { redirects: full.redirects + cmd.redirects, ..full })
            },
            Ok(Some(_)) => Err(
                bad_alias(
                    name,
                    "aliases containing operators can't be used inside a pipeline yet"@,
                ),
            ),
            Ok(None) => Err(bad_alias(name, "expands to nothing"@)),
            Err(e) => Err(bad_alias(name, e)),
        }
    } else {
        Ok(cmd)
    }
}

/// Where a stage writes to that has no file for its output.
pub open spec fn stage_output(streams: Streams, is_last: bool) -> Drain {
    if streams.stdout is None && !is_last {
        Drain::Pipe
    } else {
        Drain::To(output_sink(streams))
    }
}

/// What a stage does whose words have become `words`. `fed` tells whether the
/// stage before it writes into a pipe.
pub open spec fn staged(
    words: Seq<Seq<char>>,
    streams: Streams,
    is_last: bool,
    fed: bool,
) -> StageDeed {
    if words.len() == 0 {
        StageDeed::Stop {
            status: 1,
            message: "lush: syntax error: missing command in pipeline"@,
        }
    } else if words[0] == "exit"@ {
        StageDeed::Stop {
            status: exit_status(words.skip(1)),
            message: exit_message(words.skip(1)),
        }
    } else if builtin_name(words[0]) {
        StageDeed::Builtin {
            name: words[0],
            args: words.skip(1),
            out: output_sink(streams),
            err: error_sink(streams),
        }
    } else {
        StageDeed::External {
            name: words[0],
            args: words.skip(1),
            stdin: match streams.stdin {
                Some(path) => Feed::File(path),
                None => if fed {
                    Feed::Pipe
                } else {
                    Feed::Inherit
                },
            },
            stdout: stage_output(streams, is_last),
            stderr: if stage_output(streams, is_last) == Drain::Pipe && streams.stderr_to_stdout {
                Drain::Pipe
            } else {
                Drain::To(error_sink(streams))
            },
        }
    }
}

/// Whether `deed` is what a stage can do.
pub open spec fn stages_as<L: Fn(&str) -> Vec<(String, bool)>>(
    list: L,
    scope: Map<Seq<char>, Seq<char>>,
    cmd: Cmd,
    is_last: bool,
    fed: bool,
    deed: StageDeed,
) -> bool {
    exists|words: Seq<Seq<char>>| #[trigger]
        words_become(list, scope, cmd.words, words) && deed == staged(
            words,
            folded(cmd.redirects, scope),
            is_last,
            fed,
        )
}

/// Whether `deed` is what a stage can do, once its alias is dissolved. One whose alias
/// cannot be ends the pipeline.
pub open spec fn stage_does<L: Fn(&str) -> Vec<(String, bool)>>(
    list: L,
    aliases: Map<Seq<char>, Seq<char>>,
    scope: Map<Seq<char>, Seq<char>>,
    stage: Cmd,
    expand_aliases: bool,
    is_last: bool,
    fed: bool,
    deed: StageDeed,
) -> bool {
    match dissolved(aliases, stage, expand_aliases) {
        Ok(cmd) => stages_as(list, scope, cmd, is_last, fed, deed),
        Err(e) => deed == (StageDeed::Stop { status: 1, message: "lush: "@ + e }),
    }
}

/// Decides what a stage does whose words have become `words`.
pub fn stage_dispatch(
    words: Vec<String>,
    redirects: &Redirects,
    is_last: bool,
    fed: bool,
) -> (r: StagePlan)
    ensures
        r@ == staged(texts(words@), redirects@, is_last, fed),
{
    if words.len() == 0 {
        return StagePlan::Stop {
            status: 1,
            message: "lush: syntax error: missing command in pipeline".to_owned(),
        };
    }
    assert(texts(words@)[0] == words@[0]@);
    let name: String = words[0].clone();
    let args: Vec<String> = tail(&words);
    if same(&name, "exit") {
        let (status, message) = exit_requested(&args);
        return StagePlan::Stop { status, message };
    }
    if is_builtin(&name) {
        return StagePlan::Builtin {
            name,
            args,
            out: redirects.stdout_target(),
            err: redirects.stderr_target(),
        };
    }
    let stdin: Source = match &redirects.stdin {
        Some(path) => Source::File(path.clone()),
        None => if fed {
            Source::Pipe
        } else {
            Source::Inherit
        },
    };
    let piped: bool = redirects.stdout.is_none() && !is_last;
    let stdout: Outlet = if piped {
        Outlet::Pipe
    } else {
        Outlet::To(redirects.stdout_target())
    };
    let stderr: Outlet = if piped && redirects.stderr_to_stdout {
        Outlet::Pipe
    } else {
        Outlet::To(redirects.stderr_target())
    };
    StagePlan::External { name, args, stdin, stdout, stderr }
}

/// The words of a complaint about an alias.
fn alias_complaint(name: &str, what: &str) -> (r: String)
    ensures
        r@ == bad_alias(name@, what@),
{
    let mut message: String = "alias '".to_owned();
    message.append(name);
    message.append("': ");
    message.append(what);
    message
}

impl Shell {
    /// Dissolves the alias of a stage, if it invokes one.
    pub fn stage_command(&self, stage: &SimpleCommand, expand_aliases: bool) -> (r: Result<
        SimpleCommand,
        String,
    >)
        ensures
            match dissolved(self.aliases@, stage@, expand_aliases) {
                Ok(cmd) => r is Ok && r->Ok_0@ == cmd,
                Err(e) => r is Err && r->Err_0@ == e,
            },
    {
        assert(stage.words@.len() > 0 ==> stage@.words[0] == stage.words@[0]@);
        if expand_aliases {
            if let Some((name, value)) = self.alias_of(&stage.words) {
                return match parse(&value) {
                    Ok(Some(Node::Command(found))) => {
                        let mut cmd: SimpleCommand = found;
                        let args: Vec<Word> = copy_words(&stage.words, 1);
                        insert_args_into_command(&mut cmd, &args);
                        extend_redirects(&mut cmd.redirects, &stage.redirects);
                        Ok(cmd)
                    },
                    Ok(Some(_)) => Err(
                        alias_complaint(
                            &name,
                            "aliases containing operators can't be used inside a pipeline yet",
                        ),
                    ),
                    Ok(None) => Err(alias_complaint(&name, "expands to nothing")),
                    Err(e) => Err(alias_complaint(&name, &e)),
                };
            }
        }
        Ok(stage.clone())
    }

    /// Decides what a stage of a pipeline does.
    pub fn plan_stage<L: Fn(&str) -> Vec<(String, bool)>>(
        &self,
        stage: &SimpleCommand,
        expand_aliases: bool,
        is_last: bool,
        fed: bool,
        list: &L,
    ) -> (r: StagePlan)
        requires
            lists_any(*list),
        ensures
            stage_does(
                *list,
                self.aliases@,
                self.scope(),
                stage@,
                expand_aliases,
                is_last,
                fed,
                r@,
            ),
    {
        match self.stage_command(stage, expand_aliases) {
            Ok(cmd) => {
                let words: Vec<String> = self.expand_command_words(&cmd.words, list);
                let redirects: Redirects = self.redirects_from_ast(&cmd.redirects);
                let ghost all = texts(words@);
                let plan: StagePlan = stage_dispatch(words, &redirects, is_last, fed);
                assert(words_become(*list, self.scope(), cmd@.words, all));
                assert(stages_as(*list, self.scope(), cmd@, is_last, fed, plan@));
                plan
            },
            Err(e) => {
                let mut message: String = "lush: ".to_owned();
                message.append(&e);
                StagePlan::Stop { status: 1, message }
            },
        }
    }
}

// ---------------------------------------------------------------------
// The whole pipeline
// ---------------------------------------------------------------------

/// How a stage went: a builtin ran and has ended with a status, or a program was
/// started, and writes into a pipe or not.
#[derive(Debug, Clone, Copy, PartialEq, Eq, Structural)]
pub enum Outcome {
    Ran(i32),
    Started { piped: bool },
}

/// Whether the next stage is fed by a pipe after the given outcomes.
pub open spec fn fed_after(outcomes: Seq<Outcome>) -> bool {
    outcomes.len() > 0 && outcomes.last() == (Outcome::Started { piped: true })
}

/// The status of the last stage after the given outcomes, if it was a builtin.
pub open spec fn ran_after(outcomes: Seq<Outcome>) -> Option<i32> {
    if outcomes.len() == 0 {
        None
    } else {
        match outcomes.last() {
            Outcome::Ran(status) => Some(status),
            Outcome::Started { .. } => None,
        }
    }
}

/// The status of a pipeline: that of its last stage if it was a builtin, else
/// that of the last program.
pub open spec fn pipeline_status(outcomes: Seq<Outcome>, last_child: i32) -> i32 {
    match ran_after(outcomes) {
        Some(status) => status,
        None => last_child,
    }
}

/// A pipeline that is being run, stage by stage.
#[derive(Debug)]
pub struct PipelineRun {
    stages: Vec<SimpleCommand>,
    expand_aliases: bool,
    outcomes: Vec<Outcome>,
}

impl PipelineRun {
    /// The stages.
    pub closed spec fn stages(&self) -> Seq<Cmd> {
        commands_view(self.stages@)
    }

    /// Whether the stages may invoke aliases.
    pub closed spec fn expands(&self) -> bool {
        self.expand_aliases
    }

    /// How the stages went that are done.
    pub closed spec fn outcomes(&self) -> Seq<Outcome> {
        self.outcomes@
    }

    /// A pipeline none of whose stages is done.
    pub fn new(stages: &[SimpleCommand], expand_aliases: bool) -> (r: Self)
        ensures
            r.stages() == commands_view(stages@),
            r.expands() == expand_aliases,
            r.outcomes() == Seq::<Outcome>::empty(),
    {
        PipelineRun { stages: copy_commands(stages), expand_aliases, outcomes: Vec::new() }
    }

    /// What the next stage does, if any is left. The last stage does not write
    /// into a pipe, and a stage reads from one only if the stage before writes
    /// into it.
    pub fn next_stage<L: Fn(&str) -> Vec<(String, bool)>>(&self, shell: &Shell, list: &L) -> (r:
        Option<StagePlan>)
        requires
            lists_any(*list),
        ensures
            ({
                let n = self.outcomes().len() as int;
                let count = self.stages().len();
                if n >= count {
                    r is None
                } else {
                    &&& r is Some
                    &&& stage_does(
                        *list,
                        shell.aliases@,
                        shell.scope(),
                        self.stages()[n],
                        self.expands(),
                        n + 1 == count,
                        fed_after(self.outcomes()),
                        (r->0)@,
                    )
                }
            }),
    {
        let n: usize = self.outcomes.len();
        if n >= self.stages.len() {
            return None;
        }
        let fed: bool = n > 0 && match self.outcomes[n - 1] {
            Outcome::Started { piped } => piped,
            Outcome::Ran(_) => false,
        };
        let is_last: bool = self.stages.len() - n == 1;
        assert(self.stages()[n as int] == self.stages@[n as int]@);
        Some(shell.plan_stage(&self.stages[n], self.expand_aliases, is_last, fed, list))
    }

    /// Notes that a builtin has run as the next stage. The status with which the
    /// pipeline ends at once, if the builtin asks to leave.
    pub fn ran_builtin(&mut self, status: i32) -> (r: Option<i32>)
        ensures
            final(self).stages() == old(self).stages(),
            final(self).expands() == old(self).expands(),
            final(self).outcomes() == old(self).outcomes().push(Outcome::Ran(status)),
            r == (if leaves(status) {
                Some(status)
            } else {
                None
            }),
    {
        self.outcomes.push(Outcome::Ran(status));
        if status >= EXIT_SENTINEL {
            Some(status)
        } else {
            None
        }
    }

    /// Notes that a program was started as the next stage, and whether it writes
    /// into a pipe.
    pub fn started(&mut self, piped: bool)
        ensures
            final(self).stages() == old(self).stages(),
            final(self).expands() == old(self).expands(),
            final(self).outcomes() == old(self).outcomes().push(Outcome::Started { piped }),
    {
        self.outcomes.push(Outcome::Started { piped });
    }

    /// The status of the pipeline, once every stage is done and every program
    /// has ended, the last of them with status `last_child`.
    pub fn status(&self, last_child: i32) -> (r: i32)
        ensures
            r == pipeline_status(self.outcomes(), last_child),
    {
        let n: usize = self.outcomes.len();
        if n > 0 {
            if let Outcome::Ran(status) = self.outcomes[n - 1] {
                return status;
            }
        }
        last_child
    }
}

/// The statuses with which the programs end, in the order of their stages, when
/// stage `k` ends with `ends(k)`.
pub open spec fn children_of(outcomes: Seq<Outcome>, ends: spec_fn(int) -> i32) -> Seq<i32>
    decreases outcomes.len(),
{
    if outcomes.len() == 0 {
        Seq::empty()
    } else {
        let before = children_of(outcomes.drop_last(), ends);
        if outcomes.last() is Started {
            before.push(ends(outcomes.len() - 1))
        } else {
            before
        }
    }
}

/// The status of the last of several programs that have ended: 0 if there are
/// none.
pub open spec fn last_code(codes: Seq<i32>) -> i32 {
    if codes.len() == 0 {
        0
    } else {
        codes.last()
    }
}

/// The status of the last of several programs that have ended.
pub fn reap_and_get_last(codes: &[Option<i32>]) -> (r: i32)
    ensures
        r == last_code(codes@.map_values(|c: Option<i32>| code_or_one(c))),
{
    if codes.len() == 0 {
        0
    } else {
        child_status(codes[codes.len() - 1])
    }
}

/// The status of a pipeline is that of its last stage, whatever the others did.
pub proof fn law_last_stage_decides(outcomes: Seq<Outcome>, ends: spec_fn(int) -> i32)
    requires
        outcomes.len() > 0,
    ensures
        pipeline_status(outcomes, last_code(children_of(outcomes, ends))) == (
        match outcomes.last() {
            Outcome::Ran(status) => status,
            Outcome::Started { .. } => ends(outcomes.len() - 1),
        }),
{
}

/// Under `2>&1`, the errors of a stage whose output goes down the pipe go down
/// the same pipe.
pub proof fn law_errors_join_the_pipe(
    words: Seq<Seq<char>>,
    streams: Streams,
    fed: bool,
)
    requires
        words.len() > 0,
        !builtin_name(words[0]),
        streams.stdout is None,
        streams.stderr_to_stdout,
    ensures
        staged(words, streams, false, fed)->stdout == Drain::Pipe,
        staged(words, streams, false, fed)->stderr == Drain::Pipe,
{
}

/// The last stage never writes into a pipe.
pub proof fn law_last_stage_is_not_piped(words: Seq<Seq<char>>, streams: Streams, fed: bool)
    requires
        staged(words, streams, true, fed) is External,
    ensures
        !(staged(words, streams, true, fed)->stdout is Pipe),
        !(staged(words, streams, true, fed)->stderr is Pipe),
{
}

/// An alias that holds an operator never becomes a stage.
pub proof fn law_operator_alias_is_no_stage(
    aliases: Map<Seq<char>, Seq<char>>,
    cmd: Cmd,
    tree: Tree,
)
    requires
        invokes(aliases, cmd),
        parsed(aliases[text_of(cmd.words[0])]) == Ok::<Option<Tree>, Seq<char>>(Some(tree)),
        !(tree is Command),
    ensures
        dissolved(aliases, cmd, true) is Err,
{
}

/// An alias of a single command that is invoked as a stage comes to the same
/// command as when it is invoked alone.
pub proof fn law_stage_alias_is_as_alone(
    aliases: Map<Seq<char>, Seq<char>>,
    cmd: Cmd,
    value: Cmd,
)
    requires
        cmd.words.len() > 0,
        aliases.dom().contains(text_of(cmd.words[0])),
        parsed(aliases[text_of(cmd.words[0])]) == Ok::<Option<Tree>, Seq<char>>(
            Some(Tree::Command(value)),
        ),
    ensures
        dissolved(aliases, cmd, true) is Ok,
        Tree::Command(dissolved(aliases, cmd, true)->Ok_0) == invocation_tree(
            Tree::Command(value),
            cmd.words.skip(1),
            cmd.redirects,
        ),
        invoked(text_of(cmd.words[0]), aliases[text_of(cmd.words[0])], cmd) == Deed::Subtree(
            Tree::Command(dissolved(aliases, cmd, true)->Ok_0),
        ),
{
    let args = cmd.words.skip(1);
    let full = command_with_args(value, args);
    assert(tree_with_args(Tree::Command(value), args) == Tree::Command(full));
    assert(extended(full, Seq::empty(), cmd.redirects) =~= Cmd {
        redirects: full.redirects + cmd.redirects,
        ..full
    });
}

/// A stage that invokes an alias of a single command runs that command with the
/// words of the stage behind its first: in place of the first word `$argv`, or else
/// at the end. The redirections of the stage come behind those of the alias.
pub proof fn law_stage_hands_its_arguments_on(
    aliases: Map<Seq<char>, Seq<char>>,
    cmd: Cmd,
    value: Cmd,
    p: int,
)
    requires
        cmd.words.len() > 0,
        aliases.dom().contains(text_of(cmd.words[0])),
        parsed(aliases[text_of(cmd.words[0])]) == Ok::<Option<Tree>, Seq<char>>(
            Some(Tree::Command(value)),
        ),
    ensures
        ({
            let r = dissolved(aliases, cmd, true);
            let args = cmd.words.skip(1);
            &&& r is Ok
            &&& no_argv(value.words) ==> r->Ok_0.words == value.words + args
            &&& first_argv(value.words, p) ==> r->Ok_0.words == value.words.take(p) + args
                + value.words.skip(p + 1)
            &&& r->Ok_0.redirects == value.redirects + cmd.redirects
        }),
{
    law_command_takes_arguments(value, cmd.words.skip(1), p);
}

/// A stage that names no alias, or whose aliases are not expanded, stays as it is.
pub proof fn law_other_stages_stay(
    aliases: Map<Seq<char>, Seq<char>>,
    cmd: Cmd,
    expand_aliases: bool,
)
    requires
        !expand_aliases || cmd.words.len() == 0 || !aliases.dom().contains(text_of(cmd.words[0])),
    ensures
        dissolved(aliases, cmd, expand_aliases) == Ok::<Cmd, Seq<char>>(cmd),
{
}

/// A stage whose first word is no builtin starts the program that the first word
/// names, with all the other words as its arguments, in order.
pub proof fn law_stages_start_programs(
    words: Seq<Seq<char>>,
    streams: Streams,
    is_last: bool,
    fed: bool,
)
    requires
        words.len() > 0,
        !builtin_names().contains(words[0]),
    ensures
        staged(words, streams, is_last, fed) is External,
        staged(words, streams, is_last, fed)->External_name == words[0],
        seq![words[0]] + staged(words, streams, is_last, fed)->External_args == words,
{
    law_other_words_start_programs(words, streams, false);
    law_these_are_the_builtins(words[0]);
}

/// A builtin runs as a stage as it does alone, with the streams of the shell unless
/// its own redirections say otherwise, and `exit` ends the pipeline with the status
/// that it has alone.
pub proof fn law_builtin_stages_are_as_alone(
    words: Seq<Seq<char>>,
    streams: Streams,
    is_last: bool,
    fed: bool,
)
    requires
        words.len() > 0,
        builtin_names().contains(words[0]),
    ensures
        match dispatched(words, streams, false) {
            Deed::Builtin { name, args, stdout, stderr } => staged(words, streams, is_last, fed)
                == (StageDeed::Builtin { name, args, out: stdout, err: stderr }),
            Deed::Done { status, message } => staged(words, streams, is_last, fed) == (
            StageDeed::Stop { status, message }),
            _ => false,
        },
{
    law_these_are_the_builtins(words[0]);
}

/// A program that is a stage reads from the file of its last `<`; without one, from
/// the pipe if the stage before it feeds one, and else from where the shell reads.
pub proof fn law_stage_input(
    words: Seq<Seq<char>>,
    redirs: Seq<Redir>,
    env: Map<Seq<char>, Seq<char>>,
    is_last: bool,
    fed: bool,
    p: int,
)
    requires
        staged(words, folded(redirs, env), is_last, fed) is External,
    ensures
        ({
            let stdin = staged(words, folded(redirs, env), is_last, fed)->External_stdin;
            &&& last_where(redirs, |r: Redir| r is In, p) ==> stdin == Feed::File(
                expansion(env, redirs[p]->In_0),
            )
            &&& (forall|k: int| 0 <= k < redirs.len() ==> !(#[trigger] redirs[k] is In))
                ==> stdin == (if fed {
                Feed::Pipe
            } else {
                Feed::Inherit
            })
        }),
{
    if last_where(redirs, |r: Redir| r is In, p) {
        law_last_input_wins(redirs, env, p);
    }
    law_other_streams_stay(redirs, env);
}

/// A program that is a stage writes into the pipe exactly if another stage follows
/// and no redirection sends its output to a file. In every other case its output
/// goes where it would go outside a pipeline.
pub proof fn law_stage_output(
    words: Seq<Seq<char>>,
    redirs: Seq<Redir>,
    env: Map<Seq<char>, Seq<char>>,
    is_last: bool,
    fed: bool,
)
    requires
        staged(words, folded(redirs, env), is_last, fed) is External,
    ensures
        ({
            let stdout = staged(words, folded(redirs, env), is_last, fed)->External_stdout;
            let alone = dispatched(words, folded(redirs, env), false);
            &&& stdout is Pipe <==> !is_last && forall|k: int|
                0 <= k < redirs.len() ==> !(#[trigger] redirs[k] is Out || redirs[k] is Append
                    || redirs[k] is Both)
            &&& alone is External
            &&& stdout is To ==> stdout->To_0 == alone->External_stdout
        }),
{
    let f = |r: Redir| output_word(r) is Some;
    law_other_streams_stay(redirs, env);
    if exists|k: int|
        0 <= k < redirs.len() && (#[trigger] redirs[k] is Out || redirs[k] is Append
            || redirs[k] is Both) {
        let k = choose|k: int|
            0 <= k < redirs.len() && (#[trigger] redirs[k] is Out || redirs[k] is Append
                || redirs[k] is Both);
        assert(f(redirs[k]));
        let p = lemma_some_last(redirs, f, k);
        law_last_output_wins(redirs, env, p);
    }
}

/// Where something holds of a redirection, there is a last of which it holds.
proof fn lemma_some_last(redirs: Seq<Redir>, f: spec_fn(Redir) -> bool, k: int) -> (p: int)
    requires
        0 <= k < redirs.len(),
        f(redirs[k]),
    ensures
        last_where(redirs, f, p),
    decreases redirs.len() - k,
{
    if exists|j: int| k < j < redirs.len() && f(#[trigger] redirs[j]) {
        let j = choose|j: int| k < j < redirs.len() && f(#[trigger] redirs[j]);
        lemma_some_last(redirs, f, j)
    } else {
        k
    }
}

/// The errors of a program that is a stage go into the pipe exactly if its output
/// does and its last redirection of errors is `2>&1`. In every other case they go
/// where they would go outside a pipeline: to the file of its last `2>`, `2>>` or
/// `&>`, or where the output goes, and to the error stream of the shell if nothing
/// says otherwise.
pub proof fn law_stage_errors(
    words: Seq<Seq<char>>,
    redirs: Seq<Redir>,
    env: Map<Seq<char>, Seq<char>>,
    is_last: bool,
    fed: bool,
    p: int,
)
    requires
        staged(words, folded(redirs, env), is_last, fed) is External,
    ensures
        ({
            let deed = staged(words, folded(redirs, env), is_last, fed);
            let stdout = deed->External_stdout;
            let stderr = deed->External_stderr;
            let alone = dispatched(words, folded(redirs, env), false);
            &&& alone is External
            &&& stderr is To ==> stderr->To_0 == alone->External_stderr
            &&& last_where(redirs, |r: Redir| sets_errors(r), p) ==> {
                &&& stderr is Pipe <==> stdout is Pipe && redirs[p] is ErrToStdout
                &&& error_file(redirs[p], env) matches Some(file) ==> stderr == Drain::To(file) || (
                stderr == Drain::To(Sink::Output) && stdout == Drain::To(file))
                &&& redirs[p] is ErrToStdout && stdout is To ==> stderr == stdout || stderr
                    == Drain::To(Sink::Output)
            }
            &&& (forall|k: int| 0 <= k < redirs.len() ==> !sets_errors(#[trigger] redirs[k]))
                ==> stderr == Drain::To(Sink::Inherit)
        }),
{
    if last_where(redirs, |r: Redir| sets_errors(r), p) {
        law_last_error_wins(redirs, env, p);
        let f = |r: Redir| sets_errors(r);
        assert(f(redirs[p]));
    }
    law_other_streams_stay(redirs, env);
}

/// A stage is fed by a pipe exactly if the stage before it is a program that was
/// started and writes into one. The first stage is not.
pub proof fn law_only_pipes_feed(outcomes: Seq<Outcome>, last: Outcome)
    ensures
        !fed_after(Seq::empty()),
        fed_after(outcomes.push(last)) <==> last == (Outcome::Started { piped: true }),
{
}

/// The status of a program is its exit code; one that has none counts as 1. Of
/// several that have ended the last counts.
pub proof fn law_last_code_counts(codes: Seq<Option<i32>>, last: Option<i32>)
    ensures
        ({
            let all = codes.push(last).map_values(|c: Option<i32>| code_or_one(c));
            &&& last matches Some(code) ==> last_code(all) == code
            &&& last is None ==> last_code(all) == 1
        }),
{
    let all = codes.push(last).map_values(|c: Option<i32>| code_or_one(c));
    assert(all.last() == code_or_one(last));
}

/// A stage without words ends the pipeline with status 1, and says why. An alias
/// cannot be a stage if its value is empty or does not parse either.
pub proof fn law_stages_that_cannot_run(
    aliases: Map<Seq<char>, Seq<char>>,
    cmd: Cmd,
    streams: Streams,
    is_last: bool,
    fed: bool,
)
    ensures
        staged(Seq::empty(), streams, is_last, fed) == (StageDeed::Stop {
            status: 1,
            message: "lush: syntax error: missing command in pipeline"@,
        }),
        cmd.words.len() > 0 && aliases.dom().contains(text_of(cmd.words[0])) ==> (
        match parsed(aliases[text_of(cmd.words[0])]) {
            Ok(Some(Tree::Command(_))) => dissolved(aliases, cmd, true) is Ok,
            Ok(Some(_)) => dissolved(aliases, cmd, true) == Err::<Cmd, Seq<char>>(
                "alias '"@ + text_of(cmd.words[0]) + "': "@
                    + "aliases containing operators can't be used inside a pipeline yet"@,
            ),
            Ok(None) => dissolved(aliases, cmd, true) == Err::<Cmd, Seq<char>>(
                "alias '"@ + text_of(cmd.words[0]) + "': "@ + "expands to nothing"@,
            ),
            Err(e) => dissolved(aliases, cmd, true) == Err::<Cmd, Seq<char>>(
                "alias '"@ + text_of(cmd.words[0]) + "': "@ + e,
            ),
        }),
{
}

/// A stage whose words each stand for one argument, and the first of which comes out
/// as no builtin, starts the program that the first comes out as, with what the
/// others come out as for its arguments.
pub proof fn law_plain_stage_starts_its_program<L: Fn(&str) -> Vec<(String, bool)>>(
    list: L,
    scope: Map<Seq<char>, Seq<char>>,
    cmd: Cmd,
    is_last: bool,
    fed: bool,
    deed: StageDeed,
)
    requires
        stages_as(list, scope, cmd, is_last, fed, deed),
        cmd.words.len() > 0,
        forall|k: int|
            0 <= k < cmd.words.len() ==> stands_for_itself(scope, #[trigger] cmd.words[k]),
        !builtin_names().contains(expansion(scope, cmd.words[0])),
    ensures
        deed is External,
        seq![deed->External_name] + deed->External_args == cmd.words.map_values(
            |w: Seq<Part>| expansion(scope, w),
        ),
        exists|words: Seq<Seq<char>>| deed == #[trigger] staged(
            words,
            folded(cmd.redirects, scope),
            is_last,
            fed,
        ),
{
    let streams = folded(cmd.redirects, scope);
    let words = choose|words: Seq<Seq<char>>| #[trigger]
        words_become(list, scope, cmd.words, words) && deed == staged(
            words,
            folded(cmd.redirects, scope),
            is_last,
            fed,
        );
    law_plain_words_become_their_expansions(list, scope, cmd.words, words);
    law_stages_start_programs(words, streams, is_last, fed);
}

/// A stage that names an alias of a single command does what that command does with
/// the rest of the stage; one that names any other alias ends the pipeline with
/// status 1, and says why; and any other stage does what it says.
pub proof fn law_stages_do_what_their_aliases_say<L: Fn(&str) -> Vec<(String, bool)>>(
    list: L,
    aliases: Map<Seq<char>, Seq<char>>,
    scope: Map<Seq<char>, Seq<char>>,
    stage: Cmd,
    is_last: bool,
    fed: bool,
    deed: StageDeed,
    value: Tree,
)
    requires
        stage_does(list, aliases, scope, stage, true, is_last, fed, deed),
    ensures
        stage.words.len() == 0 || !aliases.dom().contains(text_of(stage.words[0])) ==> stages_as(
            list,
            scope,
            stage,
            is_last,
            fed,
            deed,
        ),
        stage.words.len() > 0 && aliases.dom().contains(text_of(stage.words[0])) && parsed(
            aliases[text_of(stage.words[0])],
        ) == Ok::<Option<Tree>, Seq<char>>(Some(value)) ==> match invocation_tree(
            value,
            stage.words.skip(1),
            stage.redirects,
        ) {
            Tree::Command(cmd) => stages_as(list, scope, cmd, is_last, fed, deed),
            _ => deed is Stop && deed->Stop_status == 1 && deed->Stop_message.len() > 0,
        },
{
    if stage.words.len() > 0 && aliases.dom().contains(text_of(stage.words[0])) && parsed(
        aliases[text_of(stage.words[0])],
    ) == Ok::<Option<Tree>, Seq<char>>(Some(value)) {
        reveal_strlit("lush: ");
        law_call_keeps_operators(value, stage.words.skip(1), stage.redirects);
        if let Tree::Command(cmd) = value {
            law_stage_alias_is_as_alone(aliases, stage, cmd);
        }
    }
}

} // verus!
