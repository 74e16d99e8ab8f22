use std::collections::BTreeMap;

use lush::builtin::{not_saved, reported_dir, saved, Report, Step};
use lush::command::Plan;
use lush::exit::{child_status, complaint, exit_code, NOT_STARTED};
use lush::functions::{stem_of, Script, ScriptNext};
use lush::pipeline::{reap_and_get_last, Outlet, PipelineRun, Source, StagePlan};
use lush::redirect::Target;
use lush::shell::{Shell, Table};
use lush::walk::{execute_chain, Chain, Next, Walk};
use lush::{Node, SimpleCommand};

/// A small machine: one directory of files, a few programs, two screens.
struct World {
    shell: Shell,
    dirs: Vec<String>,
    cwd: String,
    files: BTreeMap<String, String>,
    out: String,
    err: String,
}

impl World {
    fn new() -> World {
        let mut env = Table::new();
        env.insert("HOME".to_string(), "/home/me".to_string());
        env.insert("PWD".to_string(), "/home/me".to_string());
        World {
            shell: Shell::new(env),
            dirs: vec!["/".to_string(), "/home/me".to_string(), "/tmp".to_string()],
            cwd: "/home/me".to_string(),
            files: BTreeMap::new(),
            out: String::new(),
            err: String::new(),
        }
    }

    fn touch(&mut self, name: &str) {
        self.files.insert(name.to_string(), String::new());
    }

    /// Runs lines until one asks to leave; the exit code then.
    fn run(&mut self, input: &str) -> Option<i32> {
        for line in input.lines() {
            let status = self.line(line.trim());
            if let Some(code) = exit_code(status) {
                return Some(code);
            }
        }
        None
    }

    fn line(&mut self, line: &str) -> i32 {
        match execute_chain(line) {
            Chain::Run(node) => self.node(node, true),
            Chain::Nothing => 0,
            Chain::Reject(message) => {
                self.complain(&message);
                0
            }
        }
    }

    fn complain(&mut self, message: &str) {
        if !message.is_empty() {
            self.err.push_str(message);
            self.err.push('\n');
        }
    }

    fn node(&mut self, node: Node, expand_aliases: bool) -> i32 {
        let (mut walk, mut leaf) = Walk::start(node);
        loop {
            let status = match &leaf {
                Node::Command(cmd) => self.command(cmd, expand_aliases),
                Node::Pipeline(cmds) => self.pipeline(cmds, expand_aliases),
                _ => unreachable!(),
            };
            match walk.advance(status) {
                Next::Run(node) => leaf = node,
                Next::Done(status) => return status,
            }
        }
    }

    fn command(&mut self, cmd: &SimpleCommand, expand_aliases: bool) -> i32 {
        let files = &self.files;
        let dirs = &self.dirs;
        let list = |dir: &str| list_in(files, dir);
        let is_dir = |path: &str| dirs.contains(&path.to_string());
        match self.shell.exec_simple_command(cmd, expand_aliases, &list, &is_dir) {
            Plan::Subtree(node) => self.node(node, false),
            Plan::Done { status, message } => {
                self.complain(&message);
                status
            }
            Plan::ChangeDir { target } => {
                self.builtin("cd", &[target], Target::Inherit, Target::Inherit)
            }
            Plan::Builtin { name, args, stdout, stderr } => {
                self.builtin(&name, &args, stdout, stderr)
            }
            Plan::External { name, args, stdin, stdout, stderr } => {
                let input = match stdin {
                    Some(path) => self.files.get(&path).cloned().unwrap_or_default(),
                    None => String::new(),
                };
                match self.program(&name, &args, &input) {
                    Some((status, out, err)) => {
                        let mut pens = self.open(&stdout, &stderr);
                        self.write(&mut pens, &out, &err);
                        status
                    }
                    None => {
                        self.complain(&complaint(&name, "not found"));
                        NOT_STARTED
                    }
                }
            }
        }
    }

    fn pipeline(&mut self, cmds: &[SimpleCommand], expand_aliases: bool) -> i32 {
        let mut run = PipelineRun::new(cmds, expand_aliases);
        let mut codes: Vec<Option<i32>> = Vec::new();
        let mut pipe = String::new();
        loop {
            let files = &self.files;
            let list = |dir: &str| list_in(files, dir);
            let Some(plan) = run.next_stage(&self.shell, &list) else {
                break;
            };
            match plan {
                StagePlan::Stop { status, message } => {
                    self.complain(&message);
                    return status;
                }
                StagePlan::Builtin { name, args, out, err } => {
                    let status = self.builtin(&name, &args, out, err);
                    if let Some(status) = run.ran_builtin(status) {
                        return status;
                    }
                }
                StagePlan::External { name, args, stdin, stdout, stderr } => {
                    let input = match stdin {
                        Source::Inherit => String::new(),
                        Source::Pipe => pipe.clone(),
                        Source::File(path) => self.files.get(&path).cloned().unwrap_or_default(),
                    };
                    pipe = String::new();
                    let Some((status, out, err)) = self.program(&name, &args, &input) else {
                        self.complain(&complaint(&name, "not found"));
                        return NOT_STARTED;
                    };
                    match (&stdout, &stderr) {
                        (Outlet::To(to), Outlet::To(errors)) => {
                            let mut pens = self.open(to, errors);
                            self.write(&mut pens, &out, &err);
                        }
                        (Outlet::Pipe, Outlet::To(errors)) => {
                            pipe.push_str(&out);
                            let mut pens = self.open(&Target::Inherit, errors);
                            self.write(&mut pens, "", &err);
                        }
                        _ => {
                            pipe.push_str(&out);
                            pipe.push_str(&err);
                        }
                    }
                    codes.push(Some(status));
                    run.started(stdout == Outlet::Pipe);
                }
            }
        }
        run.status(reap_and_get_last(&codes))
    }

    fn builtin(&mut self, name: &str, args: &[String], stdout: Target, stderr: Target) -> i32 {
        let mut pens = self.open(&stdout, &stderr);
        let report = match self.shell.run_builtin(name, args) {
            Step::Done(report) => report,
            Step::ChangeDir { path, announce } => {
                let previous = self.cwd.clone();
                let outcome = if self.dirs.contains(&path) {
                    self.cwd = path.clone();
                    Ok(Some(path.clone()))
                } else {
                    Err("no such directory".to_string())
                };
                self.shell.changed_dir(&path, announce, Some(previous), outcome)
            }
            Step::ReportDir => reported_dir(Ok(self.cwd.clone())),
            Step::Source { path } => {
                let Some(contents) = self.files.get(&path).cloned() else {
                    self.complain(&complaint(&path, "no such file"));
                    return 1;
                };
                return self.script(&contents);
            }
            Step::Save { name, dir: _, path, contents } => {
                if name == "locked" {
                    not_saved(&path, "read-only")
                } else {
                    self.files.insert(path.clone(), contents);
                    saved(&name, &path)
                }
            }
        };
        let Report { status, out, err } = report;
        self.write(&mut pens, &out, &err);
        status
    }

    fn script(&mut self, contents: &str) -> i32 {
        let mut script = Script::new(contents);
        let mut status = 0;
        loop {
            match script.advance(status) {
                ScriptNext::Run(line) => status = self.line(&line),
                ScriptNext::Done(status) => return status,
            }
        }
    }

    /// Opens the files of both streams. A file that is not appended to is emptied.
    fn open(&mut self, stdout: &Target, stderr: &Target) -> Pens {
        let out = self.open_one(stdout);
        let err = self.open_one(stderr);
        Pens { shared: *stderr == Target::Output, out, err }
    }

    fn open_one(&mut self, target: &Target) -> Option<Pen> {
        match target {
            Target::File { path, append } => {
                let file = self.files.entry(path.clone()).or_default();
                if !append {
                    file.clear();
                }
                Some(Pen { path: path.clone(), append: *append, at: 0 })
            }
            _ => None,
        }
    }

    fn write(&mut self, pens: &mut Pens, out: &str, err: &str) {
        match &mut pens.out {
            Some(pen) => pen.write(&mut self.files, out),
            None => self.out.push_str(out),
        }
        let pen = if pens.shared { &mut pens.out } else { &mut pens.err };
        match pen {
            Some(pen) => pen.write(&mut self.files, err),
            None => self.err.push_str(err),
        }
    }

    fn program(&mut self, name: &str, args: &[String], input: &str) -> Option<(i32, String, String)> {
        let quiet = String::new();
        Some(match name {
            "echo" | "/bin/echo" => (0, format!("{}\n", args.join(" ")), quiet),
            "true" => (0, quiet.clone(), quiet),
            "false" => (1, quiet.clone(), quiet),
            "both" => (3, "out\n".to_string(), "err\n".to_string()),
            "up" => (0, input.to_uppercase(), quiet),
            "tr" => (0, input.to_uppercase(), quiet),
            "count" => (0, format!("{}\n", input.lines().count()), quiet),
            "cat" => {
                let mut all = input.to_string();
                for path in args {
                    all.push_str(self.files.get(path).map(|s| s.as_str()).unwrap_or(""));
                }
                (0, all, quiet)
            }
            "rm" => {
                for path in args {
                    self.files.remove(path);
                }
                (0, quiet.clone(), quiet)
            }
            "killed" => (child_status(None), quiet.clone(), quiet),
            _ => return None,
        })
    }
}

/// The open files of a command.
struct Pens {
    shared: bool,
    out: Option<Pen>,
    err: Option<Pen>,
}

/// An open file, with the place where the next text goes.
struct Pen {
    path: String,
    append: bool,
    at: usize,
}

impl Pen {
    fn write(&mut self, files: &mut BTreeMap<String, String>, text: &str) {
        let file = files.entry(self.path.clone()).or_default();
        let from = if self.append { file.len() } else { self.at };
        let end = (from + text.len()).min(file.len());
        file.replace_range(from..end, text);
        self.at = from + text.len();
    }
}

fn list_in(files: &BTreeMap<String, String>, dir: &str) -> Vec<(String, bool)> {
    if dir.is_empty() {
        files.keys().filter(|n| !n.contains('/')).map(|n| (n.clone(), false)).collect()
    } else {
        Vec::new()
    }
}

#[test]
fn runs_simple_command() {
    let mut w = World::new();
    assert_eq!(w.run("echo hello\n"), None);
    assert_eq!(w.out.trim_end(), "hello");
}

#[test]
fn quoted_pipe_stays_literal() {
    let mut w = World::new();
    w.run("echo \"hello | world\"\n");
    assert!(w.out.contains("hello | world"));
}

#[test]
fn glued_redirection_needs_no_whitespace() {
    let mut w = World::new();
    w.run("echo hi>f.txt\ncat f.txt\n");
    assert!(w.out.trim_end().ends_with("hi"));
}

#[test]
fn variables_expand_unless_single_quoted() {
    let mut w = World::new();
    w.run("name=world\necho hello $name\necho '${name}'\n");
    assert!(w.out.contains("hello world"));
    assert!(w.out.contains("${name}"));
}

#[test]
fn chains_short_circuit_correctly() {
    let mut w = World::new();
    w.run("false && echo yes || echo fallback\ntrue && echo reached\n");
    assert!(!w.out.contains("yes"));
    assert!(w.out.contains("fallback"));
    assert!(w.out.contains("reached"));
}

#[test]
fn operator_alias_runs_full_chain() {
    let mut w = World::new();
    w.run("alias gs='echo status && echo diff'\ngs\n");
    assert_eq!(w.out, "status\ndiff\n");
}

#[test]
fn alias_args_splice_into_argv() {
    let mut w = World::new();
    w.run("alias w='echo pre $argv post'\nw A B\n");
    assert!(w.out.contains("pre A B post"));
}

#[test]
fn alias_trailing_args_append_to_last_command() {
    let mut w = World::new();
    w.run("alias two='echo one && echo tail'\ntwo extra\n");
    assert!(w.out.contains("tail extra"));
    assert!(!w.out.contains("one extra"));
}

#[test]
fn site_redirect_applies_to_operator_alias() {
    let mut w = World::new();
    w.run("alias gs='echo a && echo b'\ngs > o.txt\n");
    assert!(w.out.contains("a"));
    assert_eq!(w.files["o.txt"], "b\n");
}

#[test]
fn operator_alias_inside_pipeline_hard_errors() {
    let mut w = World::new();
    w.run("alias gs='echo alpha && echo beta'\ngs | cat\n");
    assert_eq!(
        w.err,
        "lush: alias 'gs': aliases containing operators can't be used inside a pipeline yet\n"
    );
    assert!(!w.out.contains("alpha") && !w.out.contains("beta"));
}

#[test]
fn simple_alias_inside_pipeline_still_works() {
    let mut w = World::new();
    w.run("alias up='tr a-z A-Z'\necho mixed | up\n");
    assert!(w.out.contains("MIXED"));
}

#[test]
fn stderr_joins_pipeline_via_2_to_1() {
    let mut w = World::new();
    w.run("both 2>&1 | count\n");
    assert_eq!(w.out.trim_end().chars().last(), Some('2'));
    assert_eq!(w.err, "");
    w.run("both | count\n");
    assert_eq!(w.out.trim_end().chars().last(), Some('1'));
    assert_eq!(w.err, "err\n");
}

#[test]
fn builtin_stdout_redirect_works() {
    let mut w = World::new();
    w.run("pwd > pf.txt\ncat pf.txt\n");
    assert!(w.out.contains("/home/me"));
}

#[test]
fn funcsave_persists_across_restarts() {
    let mut first = World::new();
    first.run("alias ft='echo saved'\nfuncsave ft\n");
    assert!(first.err.is_empty());
    let path = "/home/me/.config/lush/functions/ft.lush";
    assert_eq!(first.out, format!("Saved 'ft' to {}\n", path));

    let mut second = World::new();
    let stem = stem_of("ft.lush").unwrap();
    let warnings = second.shell.load_function_file(&stem, path, &first.files[path]);
    assert!(warnings.is_empty());
    second.run("ft again\n");
    assert_eq!(second.out, "saved again\n");
}

#[test]
fn dangling_redirect_reports_error_without_crashing() {
    let mut w = World::new();
    w.run("echo hi >\necho after\n");
    assert!(!w.err.is_empty());
    assert!(w.out.contains("after"));
}

#[test]
fn rm_with_glob_removes_matching_files() {
    let mut w = World::new();
    w.touch("a.txt");
    w.touch("b.txt");
    w.touch("keep.log");
    w.run("rm *.txt\n/bin/echo remaining: *.txt\n");
    assert!(!w.files.contains_key("a.txt"));
    assert!(!w.files.contains_key("b.txt"));
    assert!(w.files.contains_key("keep.log"));
    assert!(w.out.contains("remaining: *.txt"));
}

#[test]
fn quoted_glob_never_expands_even_when_matching() {
    let mut w = World::new();
    w.touch("a.txt");
    w.run("/bin/echo \"*.txt\"\n");
    assert_eq!(w.out.trim_end(), "*.txt");
}

#[test]
fn variable_holding_a_pattern_globs_like_bash() {
    let mut w = World::new();
    w.touch("x.dat");
    w.touch("y.dat");
    w.run("pat=*.dat\n/bin/echo $pat\n");
    assert!(w.out.contains("x.dat") && w.out.contains("y.dat"));
}

#[test]
fn exit_stops_execution_but_shell_shuts_down_cleanly() {
    let mut w = World::new();
    assert_eq!(w.run("echo one\nexit\necho never\n"), Some(0));
    assert!(w.out.contains("one"));
    assert!(!w.out.contains("never"));
}

#[test]
fn exit_propagates_numeric_code() {
    assert_eq!(World::new().run("exit 3\n"), Some(3));
    assert_eq!(World::new().run("exit +255\n"), Some(255));
    let mut w = World::new();
    assert_eq!(w.run("exit 256\n"), Some(2));
    assert_eq!(w.err, "lush: exit: 256: numeric argument required\n");
    assert_eq!(World::new().run("exit ''\n"), Some(2));
}

#[test]
fn sequence_halts_at_exit() {
    let mut w = World::new();
    w.run("echo before ; exit ; echo after\n");
    assert!(w.out.contains("before"));
    assert!(!w.out.contains("after"));
}

#[test]
fn exit_inside_pipeline_unwinds_cleanly() {
    assert_eq!(World::new().run("echo hi | exit\n"), Some(0));
}

#[test]
fn exit_halts_every_operator() {
    let mut w = World::new();
    assert_eq!(w.run("exit 1 || echo or\n"), Some(1));
    assert_eq!(w.run("exit 0 && echo and\n"), Some(0));
    assert_eq!(w.out, "");
}

#[test]
fn unset_variable_vanishes_from_argv() {
    let mut w = World::new();
    w.run("/bin/echo A $NOPE B\n");
    assert_eq!(w.out.trim_end(), "A B");
}

#[test]
fn quoted_empty_argument_survives() {
    let mut w = World::new();
    w.run("/bin/echo A \"\" B\n");
    assert!(w.out.contains("A  B"));
}

#[test]
fn builtin_error_is_captured_by_stderr_redirect() {
    let mut w = World::new();
    w.run("cd /definitely-not-here 2> e.txt\necho moved-on\n");
    assert_eq!(w.files["e.txt"], "lush: cd: /definitely-not-here: no such directory\n");
    assert!(w.out.contains("moved-on"));
}

#[test]
fn pwd_stderr_redirect_creates_empty_file() {
    let mut w = World::new();
    w.run("pwd 2> e.txt\n");
    assert!(w.files["e.txt"].is_empty());
}

#[test]
fn script_exit_leaves_the_shell() {
    let mut w = World::new();
    w.files.insert("s.lush".to_string(), "# setup\n\necho in\n exit 4 \necho out\n".to_string());
    assert_eq!(w.run("source s.lush ; echo next\n"), Some(4));
    assert_eq!(w.out, "in\n");
    assert_eq!(World::new().run("source missing || echo gone\n"), None);
}

#[test]
fn script_exit_ends_a_pipeline() {
    let mut w = World::new();
    w.files.insert("s".to_string(), "exit 5".to_string());
    assert_eq!(w.run(". s | echo never\n"), Some(5));
    assert_eq!(w.out, "");
}

#[test]
fn script_status_is_zero_when_it_runs_through() {
    let mut w = World::new();
    w.files.insert("s".to_string(), "false\n# end\n".to_string());
    assert_eq!(w.line("source s"), 0);
    assert_eq!(w.line("source"), 1);
    assert_eq!(w.err, "lush: source: missing filename\n");
}

#[test]
fn pipeline_status_is_that_of_the_last_stage() {
    let mut w = World::new();
    assert_eq!(w.line("false | true"), 0);
    assert_eq!(w.line("true | false"), 1);
    assert_eq!(w.line("false | pwd"), 0);
    assert_eq!(w.line("pwd | false"), 1);
    assert_eq!(w.line("true | unalias nope"), 1);
    assert_eq!(w.line("true | killed"), 1);
    assert_eq!(w.line("true | nosuch"), 127);
}

#[test]
fn builtin_stage_feeds_nothing_on() {
    let mut w = World::new();
    w.run("echo a | pwd | count\n");
    assert_eq!(w.out, "/home/me\n0\n");
}

#[test]
fn file_beats_pipe() {
    let mut w = World::new();
    w.files.insert("in".to_string(), "x\ny\nz\n".to_string());
    w.run("echo a | count < in\n");
    w.run("echo kept > k | count\n");
    assert_eq!(w.out, "3\n0\n");
    assert_eq!(w.files["k"], "kept\n");
}

#[test]
fn last_redirect_of_a_stream_wins() {
    let mut w = World::new();
    w.run("echo one > a > b\necho two >> b\nboth 2> e > o\nboth &> all\nboth > x 2>&1\n");
    assert!(!w.files.contains_key("a"));
    assert_eq!(w.files["b"], "one\ntwo\n");
    assert_eq!(w.files["e"], "err\n");
    assert_eq!(w.files["o"], "out\n");
    assert_eq!(w.files["all"], "out\nerr\n");
    assert_eq!(w.files["x"], "out\nerr\n");
}

#[test]
fn files_are_shared_only_where_one_redirect_says_so() {
    let mut w = World::new();
    w.run("both > f 2> f\nboth &> a > b\nboth >> x 2>&1\nboth >> x 2>&1\nunalias nope &> u\n");
    assert_eq!(w.files["f"], "err\n");
    assert_eq!(w.files["a"], "err\n");
    assert_eq!(w.files["b"], "out\n");
    assert_eq!(w.files["x"], "out\nerr\nout\nerr\n");
    assert_eq!(w.files["u"], "lush: unalias: nope: not found\n");
    w.run("true > f | both > f 2>&1\n");
    assert_eq!(w.files["f"], "out\nerr\n");
    w.run("both 2>&1\n");
    assert_eq!(w.out, "out\n");
    assert_eq!(w.err, "err\n");
}

#[test]
fn alias_expands_one_level() {
    let mut w = World::new();
    w.run("alias echo='echo -n'\necho hi\n");
    assert_eq!(w.out, "-n hi\n");
    w.run("alias a=b\nalias b=echo\na\n");
    assert_eq!(w.err, "lush: b: not found\n");
}

#[test]
fn aliases_that_do_not_parse_or_hold_nothing() {
    let mut w = World::new();
    w.run("alias bad='echo >'\nalias none=' '\n");
    assert_eq!(w.line("bad"), 1);
    assert_eq!(w.line("none"), 0);
    assert_eq!(w.line("none | cat"), 1);
    assert_eq!(w.line("bad | cat"), 1);
    assert_eq!(
        w.err,
        "lush: alias 'bad': syntax error: expected a filename after '>', found Eof\n\
         lush: alias 'none': expands to nothing\n\
         lush: alias 'bad': syntax error: expected a filename after '>', found Eof\n"
    );
}

#[test]
fn missing_commands_are_errors() {
    let mut w = World::new();
    assert_eq!(w.line("> out.txt"), 1);
    assert_eq!(w.line("$NOPE"), 1);
    assert_eq!(w.line("echo hi | $NOPE"), 1);
    assert_eq!(
        w.err,
        "lush: syntax error: missing command\n\
         lush: syntax error: missing command\n\
         lush: syntax error: missing command in pipeline\n"
    );
}

#[test]
fn paths_change_directory_by_themselves() {
    let mut w = World::new();
    w.run("/tmp\npwd\n~\npwd\ncd -\nhome\n");
    assert_eq!(w.out, "/tmp\n/home/me\n/tmp\n");
    assert_eq!(w.err, "lush: home: not found\n");
    assert_eq!(w.line("/nowhere"), 127);
}

#[test]
fn cd_dash_needs_an_old_directory() {
    let mut w = World::new();
    assert_eq!(w.line("cd -"), 1);
    assert_eq!(w.err, "lush: cd: OLDPWD not set\n");
    w.run("cd /tmp\ncd /nowhere\ncd -\ncd\n");
    assert!(w.out.ends_with("/home/me\n"));
    assert_eq!(w.cwd, "/home/me");
    assert_eq!(w.shell.lookup_variable("OLDPWD"), Some("/home/me".to_string()));
}

#[test]
fn pwd_asks_the_system_only_without_the_variable() {
    let mut w = World::new();
    w.run("PWD=elsewhere\npwd\nunset PWD\npwd\n");
    assert_eq!(w.out, "elsewhere\n/home/me\n");
    assert_eq!(reported_dir(Err("gone".to_string())).err, "lush: pwd: gone\n");
}

#[test]
fn aliases_are_listed_in_order() {
    let mut w = World::new();
    w.run("alias z=1\nalias a = 'x y'\nalias m='q'\nalias\nunalias m\nalias\n");
    assert_eq!(
        w.out,
        "alias a='x y'\nalias m='q'\nalias z='1'\nalias a='x y'\nalias z='1'\n"
    );
}

#[test]
fn alias_errors() {
    let mut w = World::new();
    assert_eq!(w.line("alias foo"), 1);
    assert_eq!(w.line("alias =x"), 1);
    assert_eq!(w.line("unalias foo"), 1);
    assert_eq!(w.line("unalias"), 1);
    assert_eq!(w.line("funcsave"), 1);
    assert_eq!(w.line("funcsave foo"), 1);
    assert_eq!(w.line("unset"), 1);
    assert_eq!(
        w.err,
        "lush: alias: invalid syntax, expected name=value\n\
         lush: alias: invalid syntax, expected name=value\n\
         lush: unalias: foo: not found\n\
         lush: unalias: missing name\n\
         lush: funcsave: missing name\n\
         lush: funcsave: foo: no such alias defined\n\
         lush: unset: missing name\n"
    );
}

#[test]
fn funcsave_says_what_went_wrong() {
    let mut w = World::new();
    w.run("alias locked='ls'\nfuncsave locked\nalias x=y\nunset HOME\nfuncsave x\n");
    assert_eq!(
        w.err,
        "lush: funcsave: /home/me/.config/lush/functions/locked.lush: read-only\n\
         lush: funcsave: $HOME not set\n"
    );
}

#[test]
fn export_sets_promotes_and_lists() {
    let mut w = World::new();
    w.run("export B=2 =x C\nA=1\nexport A\nexport\n");
    assert_eq!(w.err, "lush: export: invalid name in '=x'\nlush: export: C: not set\n");
    assert_eq!(w.out, "export A=1\nexport B=2\n");
    assert_eq!(w.shell.env.get("A"), Some("1".to_string()));
    assert_eq!(w.shell.env.get("B"), Some("2".to_string()));
    w.run("unset A B\n");
    assert_eq!(w.shell.env.get("A"), None);
    assert_eq!(w.shell.lookup_variable("B"), None);
}

#[test]
fn assignment_shadows_the_environment_without_changing_it() {
    let mut w = World::new();
    w.run("HOME=/shadow\necho $HOME\n");
    assert_eq!(w.out, "/shadow\n");
    assert_eq!(w.shell.env.get("HOME"), Some("/home/me".to_string()));
}

#[test]
fn only_exported_variables_are_listed() {
    let mut w = World::new();
    w.run("A=1\nexport\n");
    assert_eq!(w.out, "");
    w.run("export B=2\nB=3\nHOME=/home/me\nexport\n");
    assert_eq!(w.out, "export HOME=/home/me\n");
}

#[test]
fn names_that_the_system_cannot_hold_are_reported() {
    let mut w = World::new();
    w.run("x=1\nexport y=2\n");
    assert_eq!(w.line("unset a=b y ''"), 1);
    assert_eq!(w.line("export bad=\0 z=3"), 1);
    assert_eq!(w.line("export no\0pe"), 1);
    assert_eq!(w.line("export n\0=1"), 1);
    assert_eq!(
        w.err,
        "lush: unset: invalid name 'a=b'\n\
         lush: unset: invalid name ''\n\
         lush: export: invalid value in 'bad=\0'\n\
         lush: export: no\0pe: not set\n\
         lush: export: invalid name in 'n\0=1'\n"
    );
    assert_eq!(w.shell.lookup_variable("x"), Some("1".to_string()));
    assert_eq!(w.shell.lookup_variable("y"), None);
    assert_eq!(w.shell.lookup_variable("bad"), None);
    assert_eq!(w.shell.env.get("z"), Some("3".to_string()));
    w.run("nul=\0\n");
    assert_eq!(w.line("export nul"), 1);
    assert_eq!(w.shell.env.get("nul"), None);
}
