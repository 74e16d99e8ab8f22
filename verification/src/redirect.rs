//! Where the streams of a command go.

use vstd::prelude::*;

use crate::ast::{redirects_view, Redir, Redirect};
use crate::expand::{expand_word, expansion, law_expansion_is_determined};
use crate::shell::Shell;
use crate::word::{Part, Word};

verus! {

/// The files that the redirections of one command name, folded per stream.
#[derive(Debug)]
pub struct Redirects {
    /// The file that feeds the command.
    pub stdin: Option<String>,
    /// The file that takes the output.
    pub stdout: Option<String>,
    /// Whether the output is appended to that file (`>>`).
    pub append: bool,
    /// The file that takes the errors.
    pub stderr: Option<String>,
    /// Whether the errors are appended to that file (`2>>`).
    pub stderr_append: bool,
    /// Whether errors go where the output goes (`2>&1`).
    pub stderr_to_stdout: bool,
    /// Whether one redirection sends both streams to the same file (`&>`).
    pub both: bool,
}

/// The model of [`Redirects`].
#[verifier::ext_equal]
pub struct Streams {
    pub stdin: Option<Seq<char>>,
    pub stdout: Option<Seq<char>>,
    pub append: bool,
    pub stderr: Option<Seq<char>>,
    pub stderr_append: bool,
    pub stderr_to_stdout: bool,
    pub both: bool,
}

/// The model of an optional text.
pub open spec fn text_in(s: Option<String>) -> Option<Seq<char>> {
    match s {
        Some(s) => Some(s@),
        None => None,
    }
}

impl View for Redirects {
    type V = Streams;

    open spec fn view(&self) -> Streams {
        Streams {
            stdin: text_in(self.stdin),
            stdout: text_in(self.stdout),
            append: self.append,
            stderr: text_in(self.stderr),
            stderr_append: self.stderr_append,
            stderr_to_stdout: self.stderr_to_stdout,
            both: self.both,
        }
    }
}

/// No redirection at all.
pub open spec fn untouched() -> Streams {
    Streams {
        stdin: None,
        stdout: None,
        append: false,
        stderr: None,
        stderr_append: false,
        stderr_to_stdout: false,
        both: false,
    }
}

/// `streams` after one more redirection, with the variables `env`.
pub open spec fn redirected(
    streams: Streams,
    redir: Redir,
    env: Map<Seq<char>, Seq<char>>,
) -> Streams {
    match redir {
        Redir::In(w) => Streams { stdin: Some(expansion(env, w)), ..streams },
        Redir::Out(w) => Streams {
            stdout: Some(expansion(env, w)),
            append: false,
            both: false,
            ..streams
        },
        Redir::Append(w) => Streams {
            stdout: Some(expansion(env, w)),
            append: true,
            both: false,
            ..streams
        },
        Redir::ErrOut(w) => Streams {
            stderr: Some(expansion(env, w)),
            stderr_append: false,
            stderr_to_stdout: false,
            both: false,
            ..streams
        },
        Redir::ErrAppend(w) => Streams {
            stderr: Some(expansion(env, w)),
            stderr_append: true,
            stderr_to_stdout: false,
            both: false,
            ..streams
        },
        Redir::ErrToStdout => Streams {
            stderr: None,
            stderr_to_stdout: true,
            both: false,
            ..streams
        },
        Redir::Both(w) => Streams {
            stdout: Some(expansion(env, w)),
            append: false,
            stderr: Some(expansion(env, w)),
            stderr_append: false,
            stderr_to_stdout: false,
            both: true,
            ..streams
        },
    }
}

/// What the redirections come to, taken in order.
pub open spec fn folded(redirs: Seq<Redir>, env: Map<Seq<char>, Seq<char>>) -> Streams
    decreases redirs.len(),
{
    if redirs.len() == 0 {
        untouched()
    } else {
        redirected(folded(redirs.drop_last(), env), redirs.last(), env)
    }
}

impl Shell {
    /// The text of a word after its variables are replaced.
    pub fn expand(&self, word: &Word) -> (r: String)
        ensures
            r@ == expansion(self.scope(), word@),
    {
        let lookup = |name: &str| -> (r: Option<String>)
            ensures
                r is Some == self.scope().dom().contains(name@),
                r is Some ==> r->0@ == self.scope()[name@],
            { self.lookup_variable(name) };
        let r: String = expand_word(word, &lookup);
        proof {
            law_expansion_is_determined(lookup, self.scope(), word@);
        }
        r
    }

    /// Folds the redirections of a command. For each stream the last one wins:
    /// `cmd > a > b` writes to `b`.
    pub fn redirects_from_ast(&self, redirects: &[Redirect]) -> (r: Redirects)
        ensures
            r@ == folded(redirects_view(redirects@), self.scope()),
    {
        let mut r = Redirects {
            stdin: None,
            stdout: None,
            append: false,
            stderr: None,
            stderr_append: false,
            stderr_to_stdout: false,
            both: false,
        };
        let ghost all = redirects_view(redirects@);
        let mut i: usize = 0;
        while i < redirects.len()
            invariant
                i <= redirects@.len(),
                all == redirects_view(redirects@),
                r@ == folded(all.take(i as int), self.scope()),
            decreases redirects@.len() - i,
        {
            proof {
                assert(all.take(i + 1).drop_last() =~= all.take(i as int));
                assert(all.take(i + 1).last() == redirects@[i as int]@);
            }
            match &redirects[i] {
                Redirect::In(word) => {
                    r.stdin = Some(self.expand(word));
                },
                Redirect::Out(word) => {
                    r.stdout = Some(self.expand(word));
                    r.append = false;
                    r.both = false;
                },
                Redirect::Append(word) => {
                    r.stdout = Some(self.expand(word));
                    r.append = true;
                    r.both = false;
                },
                Redirect::ErrOut(word) => {
                    r.stderr = Some(self.expand(word));
                    r.stderr_append = false;
                    r.stderr_to_stdout = false;
                    r.both = false;
                },
                Redirect::ErrAppend(word) => {
                    r.stderr = Some(self.expand(word));
                    r.stderr_append = true;
                    r.stderr_to_stdout = false;
                    r.both = false;
                },
                Redirect::ErrToStdout => {
                    r.stderr_to_stdout = true;
                    r.stderr = None;
                    r.both = false;
                },
                Redirect::Both(word) => {
                    let path: String = self.expand(word);
                    r.stdout = Some(path.clone());
                    r.append = false;
                    r.stderr = Some(path);
                    r.stderr_append = false;
                    r.stderr_to_stdout = false;
                    r.both = true;
                },
            }
            i = i + 1;
        }
        assert(all.take(i as int) =~= all);
        r
    }
}

// ---------------------------------------------------------------------
// Targets
// ---------------------------------------------------------------------

/// Where an output stream goes.
#[derive(Debug, PartialEq, Eq)]
pub enum Target {
    /// Where that stream of the shell itself goes.
    Inherit,
    /// Into a file, which is created if need be, and emptied first unless the
    /// output is appended.
    File { path: String, append: bool },
    /// Into the file that the output goes to, opened once for both streams, so
    /// that neither overwrites the other.
    Output,
}

/// The model of a [`Target`].
#[verifier::ext_equal]
pub enum Sink {
    Inherit,
    File { path: Seq<char>, append: bool },
    Output,
}

impl View for Target {
    type V = Sink;

    open spec fn view(&self) -> Sink {
        match self {
            Target::Inherit => Sink::Inherit,
            Target::File { path, append } => Sink::File { path: path@, append: *append },
            Target::Output => Sink::Output,
        }
    }
}

/// Where the output goes.
pub open spec fn output_sink(s: Streams) -> Sink {
    match s.stdout {
        Some(path) => Sink::File { path, append: s.append },
        None => Sink::Inherit,
    }
}

/// Where the errors go. Under `2>&1` they share the file of the output, where it
/// has one, and under `&>` the file that both were sent to. Else they go to a file
/// of their own, where there is one.
pub open spec fn error_sink(s: Streams) -> Sink {
    if s.stderr_to_stdout || s.both {
        if s.stdout is Some {
            Sink::Output
        } else {
            Sink::Inherit
        }
    } else {
        match s.stderr {
            Some(path) => Sink::File { path, append: s.stderr_append },
            None => Sink::Inherit,
        }
    }
}

/// Where the errors end up, the file of the output spelled out.
pub open spec fn error_place(s: Streams) -> Sink {
    match error_sink(s) {
        Sink::Output => output_sink(s),
        own => own,
    }
}

impl Redirects {
    /// The target of the output.
    pub fn stdout_target(&self) -> (r: Target)
        ensures
            r@ == output_sink(self@),
    {
        match &self.stdout {
            Some(path) => Target::File { path: path.clone(), append: self.append },
            None => Target::Inherit,
        }
    }

    /// The target of the errors.
    pub fn stderr_target(&self) -> (r: Target)
        ensures
            r@ == error_sink(self@),
    {
        if self.stderr_to_stdout || self.both {
            return if self.stdout.is_some() {
                Target::Output
            } else {
                Target::Inherit
            };
        }
        match &self.stderr {
            Some(path) => Target::File { path: path.clone(), append: self.stderr_append },
            None => Target::Inherit,
        }
    }
}

// ---------------------------------------------------------------------
// Laws
// ---------------------------------------------------------------------

/// The word that a redirection sends the output to.
pub open spec fn output_word(redir: Redir) -> Option<Seq<Part>> {
    match redir {
        Redir::Out(w) => Some(w),
        Redir::Append(w) => Some(w),
        Redir::Both(w) => Some(w),
        _ => None,
    }
}

/// Whether a redirection says where errors go.
pub open spec fn sets_errors(redir: Redir) -> bool {
    match redir {
        Redir::ErrOut(_) => true,
        Redir::ErrAppend(_) => true,
        Redir::ErrToStdout => true,
        Redir::Both(_) => true,
        _ => false,
    }
}

/// Whether `p` is the last position at which `f` holds.
pub open spec fn last_where(redirs: Seq<Redir>, f: spec_fn(Redir) -> bool, p: int) -> bool {
    &&& 0 <= p < redirs.len()
    &&& f(redirs[p])
    &&& forall|k: int| p < k < redirs.len() ==> !f(#[trigger] redirs[k])
}

/// The last redirection of the output decides where it goes.
pub proof fn law_last_output_wins(
    redirs: Seq<Redir>,
    env: Map<Seq<char>, Seq<char>>,
    p: int,
)
    requires
        last_where(redirs, |r: Redir| output_word(r) is Some, p),
    ensures
        output_sink(folded(redirs, env)) == (Sink::File {
            path: expansion(env, output_word(redirs[p])->0),
            append: redirs[p] is Append,
        }),
    decreases redirs.len(),
{
    let f = |r: Redir| output_word(r) is Some;
    let n = redirs.len() - 1;
    if p < n {
        let less = redirs.drop_last();
        assert(!f(redirs[n]));
        assert(less[p] == redirs[p]);
        assert forall|k: int| p < k < less.len() implies !f(#[trigger] less[k]) by {
            assert(less[k] == redirs[k]);
        }
        law_last_output_wins(less, env, p);
    }
}

/// The last redirection of the input decides where it comes from.
pub proof fn law_last_input_wins(redirs: Seq<Redir>, env: Map<Seq<char>, Seq<char>>, p: int)
    requires
        last_where(redirs, |r: Redir| r is In, p),
    ensures
        folded(redirs, env).stdin == Some(expansion(env, redirs[p]->In_0)),
    decreases redirs.len(),
{
    let f = |r: Redir| r is In;
    let n = redirs.len() - 1;
    if p < n {
        let less = redirs.drop_last();
        assert(!f(redirs[n]));
        assert(less[p] == redirs[p]);
        assert forall|k: int| p < k < less.len() implies !f(#[trigger] less[k]) by {
            assert(less[k] == redirs[k]);
        }
        law_last_input_wins(less, env, p);
    }
}

/// The last redirection of the errors decides where they go; `2>&1` sends them
/// to where the output finally goes.
pub proof fn law_last_error_wins(redirs: Seq<Redir>, env: Map<Seq<char>, Seq<char>>, p: int)
    requires
        last_where(redirs, |r: Redir| sets_errors(r), p),
    ensures
        error_place(folded(redirs, env)) == match redirs[p] {
            Redir::ErrOut(w) => Sink::File { path: expansion(env, w), append: false },
            Redir::ErrAppend(w) => Sink::File { path: expansion(env, w), append: true },
            Redir::Both(w) => Sink::File { path: expansion(env, w), append: false },
            _ => output_sink(folded(redirs, env)),
        },
        folded(redirs, env).stderr_to_stdout == (redirs[p] is ErrToStdout),
        folded(redirs, env).both ==> folded(redirs, env).stdout == folded(redirs, env).stderr
            && !folded(redirs, env).append && folded(redirs, env).stderr is Some,
        redirs[p] matches Redir::Both(w) ==> folded(redirs, env).stderr == Some(expansion(env, w))
            && !folded(redirs, env).stderr_append,
        !(redirs[p] is Both) ==> !folded(redirs, env).both,
    decreases redirs.len(),
{
    let f = |r: Redir| sets_errors(r);
    let n = redirs.len() - 1;
    if p < n {
        let less = redirs.drop_last();
        assert(!f(redirs[n]));
        assert(less[p] == redirs[p]);
        assert forall|k: int| p < k < less.len() implies !f(#[trigger] less[k]) by {
            assert(less[k] == redirs[k]);
        }
        law_last_error_wins(less, env, p);
    }
}

/// A position that is the last in `later` is the last in `first` and `later`.
proof fn lemma_last_of_later(
    first: Seq<Redir>,
    later: Seq<Redir>,
    f: spec_fn(Redir) -> bool,
    p: int,
)
    requires
        last_where(later, f, p),
    ensures
        last_where(first + later, f, first.len() + p),
        (first + later)[first.len() + p] == later[p],
{
    let all = first + later;
    let q = first.len() + p;
    assert(all[q] == later[p]);
    assert forall|k: int| q < k < all.len() implies !f(#[trigger] all[k]) by {
        assert(all[k] == later[k - first.len()]);
    }
}

/// Redirections that come later override those before them: where `later` says
/// where the output goes, `first` does not matter.
pub proof fn law_later_output_overrides(
    first: Seq<Redir>,
    later: Seq<Redir>,
    env: Map<Seq<char>, Seq<char>>,
    p: int,
)
    requires
        last_where(later, |r: Redir| output_word(r) is Some, p),
    ensures
        output_sink(folded(first + later, env)) == output_sink(folded(later, env)),
{
    lemma_last_of_later(first, later, |r: Redir| output_word(r) is Some, p);
    law_last_output_wins(first + later, env, first.len() + p);
    law_last_output_wins(later, env, p);
}

/// Where `later` says where the input comes from, `first` does not matter.
pub proof fn law_later_input_overrides(
    first: Seq<Redir>,
    later: Seq<Redir>,
    env: Map<Seq<char>, Seq<char>>,
    p: int,
)
    requires
        last_where(later, |r: Redir| r is In, p),
    ensures
        folded(first + later, env).stdin == folded(later, env).stdin,
{
    lemma_last_of_later(first, later, |r: Redir| r is In, p);
    law_last_input_wins(first + later, env, first.len() + p);
    law_last_input_wins(later, env, p);
}

/// Where `later` says where the errors go, `first` does not matter, except that
/// `2>&1` follows the output wherever that goes.
pub proof fn law_later_errors_override(
    first: Seq<Redir>,
    later: Seq<Redir>,
    env: Map<Seq<char>, Seq<char>>,
    p: int,
)
    requires
        last_where(later, |r: Redir| sets_errors(r), p),
    ensures
        error_place(folded(first + later, env)) == if later[p] is ErrToStdout {
            output_sink(folded(first + later, env))
        } else {
            error_place(folded(later, env))
        },
{
    lemma_last_of_later(first, later, |r: Redir| sets_errors(r), p);
    law_last_error_wins(first + later, env, first.len() + p);
    law_last_error_wins(later, env, p);
}

/// Without redirections every stream stays where it was.
pub proof fn law_no_redirection_changes_nothing(env: Map<Seq<char>, Seq<char>>)
    ensures
        folded(Seq::empty(), env).stdin is None,
        output_sink(folded(Seq::empty(), env)) == Sink::Inherit,
        error_sink(folded(Seq::empty(), env)) == Sink::Inherit,
{
}

/// Under `2>&1` the errors share the file of the output, and so they do under a
/// `&>` that nothing follows: the file is opened once for both.
pub proof fn law_shared_file_is_opened_once(
    redirs: Seq<Redir>,
    env: Map<Seq<char>, Seq<char>>,
    p: int,
)
    requires
        last_where(redirs, |r: Redir| sets_errors(r), p),
        redirs[p] is ErrToStdout || (redirs[p] is Both && p == redirs.len() - 1),
        folded(redirs, env).stdout is Some,
    ensures
        error_sink(folded(redirs, env)) == Sink::Output,
{
    law_last_error_wins(redirs, env, p);
}

/// A stream that no redirection speaks of stays where it was.
pub proof fn law_other_streams_stay(redirs: Seq<Redir>, env: Map<Seq<char>, Seq<char>>)
    ensures
        (forall|k: int| 0 <= k < redirs.len() ==> !(#[trigger] redirs[k] is In)) ==> folded(
            redirs,
            env,
        ).stdin is None,
        (forall|k: int| 0 <= k < redirs.len() ==> output_word(#[trigger] redirs[k]) is None)
            ==> folded(redirs, env).stdout is None && output_sink(folded(redirs, env))
            == Sink::Inherit,
        (forall|k: int| 0 <= k < redirs.len() ==> !sets_errors(#[trigger] redirs[k])) ==> {
            &&& error_sink(folded(redirs, env)) == Sink::Inherit
            &&& folded(redirs, env).stderr is None
            &&& !folded(redirs, env).stderr_to_stdout
            &&& !folded(redirs, env).both
        },
    decreases redirs.len(),
{
    if redirs.len() > 0 {
        let less = redirs.drop_last();
        let n = redirs.len() - 1;
        law_other_streams_stay(less, env);
        assert(redirs[n] == redirs.last());
        assert forall|k: int| 0 <= k < less.len() implies #[trigger] less[k] == redirs[k] by {}
    }
}

/// Where a redirection sends the errors by itself: `2>`, `2>>` and `&>` name a
/// file, which only `2>>` appends to.
pub open spec fn error_file(redir: Redir, env: Map<Seq<char>, Seq<char>>) -> Option<Sink> {
    match redir {
        Redir::ErrOut(w) => Some(Sink::File { path: expansion(env, w), append: false }),
        Redir::ErrAppend(w) => Some(Sink::File { path: expansion(env, w), append: true }),
        Redir::Both(w) => Some(Sink::File { path: expansion(env, w), append: false }),
        _ => None,
    }
}

/// Where the last redirection of the errors is a `&>`, and no later one sends the
/// output elsewhere, both share one file.
pub proof fn law_both_share_one_file(redirs: Seq<Redir>, env: Map<Seq<char>, Seq<char>>, p: int)
    requires
        last_where(redirs, |r: Redir| sets_errors(r) || output_word(r) is Some, p),
        redirs[p] is Both,
    ensures
        error_sink(folded(redirs, env)) == Sink::Output,
        output_sink(folded(redirs, env)) == (Sink::File {
            path: expansion(env, redirs[p]->Both_0),
            append: false,
        }),
    decreases redirs.len(),
{
    let f = |r: Redir| sets_errors(r) || output_word(r) is Some;
    let n = redirs.len() - 1;
    if p < n {
        let less = redirs.drop_last();
        assert(!f(redirs[n]));
        assert(less[p] == redirs[p]);
        assert forall|k: int| p < k < less.len() implies !f(#[trigger] less[k]) by {
            assert(less[k] == redirs[k]);
        }
        law_both_share_one_file(less, env, p);
    }
}

/// Errors that go to a file of their own do so even if the output goes to a file of
/// the same name.
pub proof fn law_own_file_is_opened_for_errors(
    redirs: Seq<Redir>,
    env: Map<Seq<char>, Seq<char>>,
    p: int,
)
    requires
        last_where(redirs, |r: Redir| sets_errors(r), p),
        redirs[p] is ErrOut || redirs[p] is ErrAppend,
    ensures
        error_sink(folded(redirs, env)) == error_file(redirs[p], env)->0,
    decreases redirs.len(),
{
    law_last_error_wins(redirs, env, p);
}

} // verus!
