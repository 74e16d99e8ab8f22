//! Turns a token stream into a syntax tree.
//!
//! Pipes bind tighter than `&&` and `||`, which bind tighter than `;`:
//!
//! ```text
//! sequence := and_or (';' and_or)* ';'?
//! and_or   := pipeline (('&&' | '||') pipeline)*
//! pipeline := command ('|' command)*
//! command  := (word | redirect)+
//! ```

use vstd::prelude::*;

use crate::ast::{
    commands_view, lemma_commands_push, lemma_redirects_push, Cmd, Node, Redir, Redirect,
    SimpleCommand, Tree,
};
use crate::lexer::{lex, lexed};
use crate::word::{lemma_words_push, text_of, tokens_view, Part, Tok, Token, Word};

verus! {

broadcast use {lemma_redirects_push, lemma_commands_push, lemma_words_push};

// ---------------------------------------------------------------------
// What the tree of a token stream is
// ---------------------------------------------------------------------

/// The token at position `p`; past the end there is only end of input.
pub open spec fn tok_at(ts: Seq<Tok>, p: int) -> Tok {
    if 0 <= p < ts.len() {
        ts[p]
    } else {
        Tok::Eof
    }
}

/// How a redirection operator is written; nothing for any other token.
pub open spec fn redirect_sign(t: Tok) -> Option<Seq<char>> {
    match t {
        Tok::RedirectIn => Some("<"@),
        Tok::RedirectOut => Some(">"@),
        Tok::RedirectAppend => Some(">>"@),
        Tok::RedirectErrOut => Some("2>"@),
        Tok::RedirectErrAppend => Some("2>>"@),
        Tok::RedirectBoth => Some("&>"@),
        _ => None,
    }
}

/// The redirection that operator `op` makes of `target`. A target of exactly
/// `&1` behind `2>` or `2>>` duplicates stderr onto stdout.
pub open spec fn redirect_to(op: Tok, target: Seq<Part>) -> Redir {
    match op {
        Tok::RedirectIn => Redir::In(target),
        Tok::RedirectOut => Redir::Out(target),
        Tok::RedirectAppend => Redir::Append(target),
        Tok::RedirectErrOut => if text_of(target) == "&1"@ {
            Redir::ErrToStdout
        } else {
            Redir::ErrOut(target)
        },
        Tok::RedirectErrAppend => if text_of(target) == "&1"@ {
            Redir::ErrToStdout
        } else {
            Redir::ErrAppend(target)
        },
        _ => Redir::Both(target),
    }
}

/// The name under which a syntax error reports a token that is not a word.
pub open spec fn token_name(t: Tok) -> Seq<char> {
    match t {
        Tok::Word(_) => "Word"@,
        Tok::Pipe => "Pipe"@,
        Tok::And => "And"@,
        Tok::Or => "Or"@,
        Tok::Semicolon => "Semicolon"@,
        Tok::RedirectIn => "RedirectIn"@,
        Tok::RedirectOut => "RedirectOut"@,
        Tok::RedirectAppend => "RedirectAppend"@,
        Tok::RedirectErrOut => "RedirectErrOut"@,
        Tok::RedirectErrAppend => "RedirectErrAppend"@,
        Tok::RedirectBoth => "RedirectBoth"@,
        Tok::Eof => "Eof"@,
    }
}

/// The error for a redirection operator that `found` follows instead of a word.
pub open spec fn missing_target(sign: Seq<char>, found: Tok) -> Seq<char> {
    "syntax error: expected a filename after '"@ + sign + "', found "@ + token_name(found)
}

/// The error for an operator, or the end, where a command should be.
pub open spec fn missing_command() -> Seq<char> {
    "syntax error: expected a command"@
}

/// A command with nothing in it.
pub open spec fn no_items() -> Cmd {
    Cmd { words: Seq::empty(), redirects: Seq::empty() }
}

/// The command that goes on at position `p` when `done` was read of it: the
/// command and the position behind it, or the error.
pub open spec fn command_at(ts: Seq<Tok>, p: int, done: Cmd) -> Result<(Cmd, int), Seq<char>>
    decreases ts.len() - p,
{
    match tok_at(ts, p) {
        Tok::Word(w) => command_at(ts, p + 1, Cmd { words: done.words.push(w), ..done }),
        op => if redirect_sign(op) is Some {
            match tok_at(ts, p + 1) {
                Tok::Word(target) => command_at(
                    ts,
                    p + 2,
                    Cmd { redirects: done.redirects.push(redirect_to(op, target)), ..done },
                ),
                found => Err(missing_target(redirect_sign(op)->0, found)),
            }
        } else if done.words.len() == 0 && done.redirects.len() == 0 {
            Err(missing_command())
        } else {
            Ok((done, p))
        },
    }
}

/// The tree of a row of piped commands: a single command stands for itself.
pub open spec fn piped(cmds: Seq<Cmd>) -> Tree {
    if cmds.len() == 1 {
        Tree::Command(cmds[0])
    } else {
        Tree::Pipeline(cmds)
    }
}

/// The pipeline that goes on at position `p` behind the commands `cmds`.
pub open spec fn pipeline_rest(ts: Seq<Tok>, p: int, cmds: Seq<Cmd>) -> Result<
    (Tree, int),
    Seq<char>,
>
    decreases ts.len() - p,
{
    if tok_at(ts, p) is Pipe {
        match command_at(ts, p + 1, no_items()) {
            Ok((c, q)) => {
                proof {
                    lemma_command_end(ts, p + 1, no_items());
                }
                pipeline_rest(ts, q, cmds.push(c))
            },
            Err(e) => Err(e),
        }
    } else {
        Ok((piped(cmds), p))
    }
}

/// The pipeline at position `p`.
pub open spec fn pipeline_at(ts: Seq<Tok>, p: int) -> Result<(Tree, int), Seq<char>> {
    match command_at(ts, p, no_items()) {
        Ok((c, q)) => pipeline_rest(ts, q, seq![c]),
        Err(e) => Err(e),
    }
}

/// The chain of `&&` and `||` that goes on at position `p` behind `left`. Both
/// operators associate to the left, with equal precedence.
pub open spec fn and_or_rest(ts: Seq<Tok>, p: int, left: Tree) -> Result<(Tree, int), Seq<char>>
    decreases ts.len() - p,
{
    if tok_at(ts, p) is And || tok_at(ts, p) is Or {
        match pipeline_at(ts, p + 1) {
            Ok((right, q)) => {
                proof {
                    lemma_pipeline_end(ts, p + 1);
                }
                and_or_rest(
                    ts,
                    q,
                    if tok_at(ts, p) is And {
                        Tree::And(Box::new(left), Box::new(right))
                    } else {
                        Tree::Or(Box::new(left), Box::new(right))
                    },
                )
            },
            Err(e) => Err(e),
        }
    } else {
        Ok((left, p))
    }
}

/// The chain of `&&` and `||` at position `p`.
pub open spec fn and_or_at(ts: Seq<Tok>, p: int) -> Result<(Tree, int), Seq<char>> {
    match pipeline_at(ts, p) {
        Ok((left, q)) => and_or_rest(ts, q, left),
        Err(e) => Err(e),
    }
}

/// The sequence that goes on at position `p` behind `left`. A `;` right before
/// the end of input is allowed.
pub open spec fn sequence_rest(ts: Seq<Tok>, p: int, left: Tree) -> Result<(Tree, int), Seq<char>>
    decreases ts.len() - p,
{
    if tok_at(ts, p) is Semicolon {
        if tok_at(ts, p + 1) is Eof {
            Ok((left, p + 1))
        } else {
            match and_or_at(ts, p + 1) {
                Ok((right, q)) => {
                    proof {
                        lemma_and_or_end(ts, p + 1);
                    }
                    sequence_rest(ts, q, Tree::Sequence(Box::new(left), Box::new(right)))
                },
                Err(e) => Err(e),
            }
        }
    } else {
        Ok((left, p))
    }
}

/// The sequence at position `p`.
pub open spec fn sequence_at(ts: Seq<Tok>, p: int) -> Result<(Tree, int), Seq<char>> {
    match and_or_at(ts, p) {
        Ok((left, q)) => sequence_rest(ts, q, left),
        Err(e) => Err(e),
    }
}

/// The tree of a token stream: nothing when it is empty.
pub open spec fn tree_of_tokens(ts: Seq<Tok>) -> Result<Option<Tree>, Seq<char>> {
    if tok_at(ts, 0) is Eof {
        Ok(None)
    } else {
        match sequence_at(ts, 0) {
            Ok((t, _)) => Ok(Some(t)),
            Err(e) => Err(e),
        }
    }
}

/// The tree of an input line.
pub open spec fn parsed(s: Seq<char>) -> Result<Option<Tree>, Seq<char>> {
    tree_of_tokens(lexed(s))
}

/// A command takes at least one token and ends where neither a word nor a
/// redirection follows.
pub proof fn lemma_command_end(ts: Seq<Tok>, p: int, done: Cmd)
    ensures
        command_at(ts, p, done) matches Ok((c, q)) ==> {
            &&& p <= q
            &&& p <= ts.len() ==> q <= ts.len()
            &&& !(tok_at(ts, q) is Word)
            &&& redirect_sign(tok_at(ts, q)) is None
            &&& done == no_items() ==> p < q
            &&& c.words.len() > 0 || c.redirects.len() > 0
        },
    decreases ts.len() - p,
{
    match tok_at(ts, p) {
        Tok::Word(w) => {
            lemma_command_end(ts, p + 1, Cmd { words: done.words.push(w), ..done });
        },
        op => {
            if redirect_sign(op) is Some {
                if let Tok::Word(target) = tok_at(ts, p + 1) {
                    lemma_command_end(
                        ts,
                        p + 2,
                        Cmd { redirects: done.redirects.push(redirect_to(op, target)), ..done },
                    );
                }
            }
        },
    }
}

proof fn lemma_pipeline_rest_end(ts: Seq<Tok>, p: int, cmds: Seq<Cmd>)
    requires
        !(tok_at(ts, p) is Word),
        redirect_sign(tok_at(ts, p)) is None,
    ensures
        pipeline_rest(ts, p, cmds) matches Ok((_, q)) ==> {
            &&& p <= q
            &&& p <= ts.len() ==> q <= ts.len()
            &&& !(tok_at(ts, q) is Word)
            &&& redirect_sign(tok_at(ts, q)) is None
            &&& !(tok_at(ts, q) is Pipe)
        },
    decreases ts.len() - p,
{
    if tok_at(ts, p) is Pipe {
        lemma_command_end(ts, p + 1, no_items());
        if let Ok((c, q)) = command_at(ts, p + 1, no_items()) {
            lemma_pipeline_rest_end(ts, q, cmds.push(c));
        }
    }
}

/// A pipeline takes at least one token and ends where none of its tokens
/// follows.
pub proof fn lemma_pipeline_end(ts: Seq<Tok>, p: int)
    ensures
        pipeline_at(ts, p) matches Ok((_, q)) ==> {
            &&& p < q
            &&& p <= ts.len() ==> q <= ts.len()
            &&& !(tok_at(ts, q) is Word)
            &&& redirect_sign(tok_at(ts, q)) is None
            &&& !(tok_at(ts, q) is Pipe)
        },
{
    lemma_command_end(ts, p, no_items());
    if let Ok((c, q)) = command_at(ts, p, no_items()) {
        lemma_pipeline_rest_end(ts, q, seq![c]);
    }
}

proof fn lemma_and_or_rest_end(ts: Seq<Tok>, p: int, left: Tree)
    requires
        !(tok_at(ts, p) is Word),
        redirect_sign(tok_at(ts, p)) is None,
        !(tok_at(ts, p) is Pipe),
    ensures
        and_or_rest(ts, p, left) matches Ok((_, q)) ==> {
            &&& p <= q
            &&& p <= ts.len() ==> q <= ts.len()
            &&& tok_at(ts, q) is Semicolon || tok_at(ts, q) is Eof
        },
    decreases ts.len() - p,
{
    if tok_at(ts, p) is And || tok_at(ts, p) is Or {
        lemma_pipeline_end(ts, p + 1);
        if let Ok((right, q)) = pipeline_at(ts, p + 1) {
            lemma_and_or_rest_end(
                ts,
                q,
                if tok_at(ts, p) is And {
                    Tree::And(Box::new(left), Box::new(right))
                } else {
                    Tree::Or(Box::new(left), Box::new(right))
                },
            );
        }
    }
}

/// A chain of `&&` and `||` takes at least one token and ends at a `;` or at
/// the end of input.
pub proof fn lemma_and_or_end(ts: Seq<Tok>, p: int)
    ensures
        and_or_at(ts, p) matches Ok((_, q)) ==> {
            &&& p < q
            &&& p <= ts.len() ==> q <= ts.len()
            &&& tok_at(ts, q) is Semicolon || tok_at(ts, q) is Eof
        },
{
    lemma_pipeline_end(ts, p);
    if let Ok((left, q)) = pipeline_at(ts, p) {
        lemma_and_or_rest_end(ts, q, left);
    }
}

proof fn lemma_sequence_rest_end(ts: Seq<Tok>, p: int, left: Tree)
    requires
        tok_at(ts, p) is Semicolon || tok_at(ts, p) is Eof,
    ensures
        sequence_rest(ts, p, left) matches Ok((_, q)) ==> {
            &&& p <= q
            &&& p <= ts.len() ==> q <= ts.len()
            &&& tok_at(ts, q) is Eof
        },
    decreases ts.len() - p,
{
    if tok_at(ts, p) is Semicolon && !(tok_at(ts, p + 1) is Eof) {
        lemma_and_or_end(ts, p + 1);
        if let Ok((right, q)) = and_or_at(ts, p + 1) {
            lemma_sequence_rest_end(
                ts,
                q,
                Tree::Sequence(Box::new(left), Box::new(right)),
            );
        }
    }
}

/// A sequence ends at the end of input and nowhere else: a parse that succeeds
/// leaves no token over.
pub proof fn law_parse_leaves_nothing_over(ts: Seq<Tok>, p: int)
    ensures
        sequence_at(ts, p) matches Ok((_, q)) ==> {
            &&& p < q
            &&& p <= ts.len() ==> q <= ts.len()
            &&& tok_at(ts, q) is Eof
        },
{
    lemma_and_or_end(ts, p);
    if let Ok((left, q)) = and_or_at(ts, p) {
        lemma_sequence_rest_end(ts, q, left);
    }
}

// ---------------------------------------------------------------------
// The parser
// ---------------------------------------------------------------------

/// Whether a parsing step came out as specified: with the same tree and at the
/// same position, or with the same error.
pub open spec fn agrees<T: View>(
    r: Result<T, String>,
    pos: usize,
    expected: Result<(T::V, int), Seq<char>>,
) -> bool {
    match expected {
        Ok((t, q)) => r is Ok && r->Ok_0@ == t && pos == q,
        Err(e) => r is Err && r->Err_0@ == e,
    }
}

/// A token stream and how far it has been read.
pub struct Parser {
    tokens: Vec<Token>,
    pos: usize,
}

impl Parser {
    pub closed spec fn stream(&self) -> Seq<Tok> {
        tokens_view(self.tokens@)
    }

    pub closed spec fn at(&self) -> usize {
        self.pos
    }

    pub open spec fn wf(&self) -> bool {
        self.at() <= self.stream().len()
    }

    /// A parser at the start of `tokens`.
    pub fn new(tokens: Vec<Token>) -> (r: Parser)
        ensures
            r.wf(),
            r.stream() == tokens_view(tokens@),
            r.at() == 0,
    {
        Parser { tokens, pos: 0 }
    }

    /// The token that comes next.
    pub fn peek(&self) -> (r: Token)
        requires
            self.wf(),
        ensures
            r@ == tok_at(self.stream(), self.at() as int),
    {
        if self.pos < self.tokens.len() {
            self.tokens[self.pos].clone()
        } else {
            Token::Eof
        }
    }

    /// Takes the token that comes next.
    pub fn advance(&mut self) -> (r: Token)
        requires
            old(self).wf(),
        ensures
            final(self).wf(),
            final(self).stream() == old(self).stream(),
            r@ == tok_at(old(self).stream(), old(self).at() as int),
            final(self).at() == if old(self).at() < old(self).stream().len() {
                old(self).at() + 1
            } else {
                old(self).at() as int
            },
    {
        let t: Token = self.peek();
        if self.pos < self.tokens.len() {
            self.pos = self.pos + 1;
        }
        t
    }

    /// Takes the word that must follow the redirection operator `op`.
    fn expect_word(&mut self, op: &str) -> (r: Result<Word, String>)
        requires
            old(self).wf(),
        ensures
            final(self).wf(),
            final(self).stream() == old(self).stream(),
            match tok_at(old(self).stream(), old(self).at() as int) {
                Tok::Word(w) => r is Ok && r->Ok_0@ == w && final(self).at() == old(self).at() + 1,
                found => r is Err && r->Err_0@ == missing_target(op@, found),
            },
    {
        let t: Token = self.advance();
        let name: &str = match t {
            Token::Word(w) => {
                return Ok(w);
            },
            Token::Pipe => "Pipe",
            Token::And => "And",
            Token::Or => "Or",
            Token::Semicolon => "Semicolon",
            Token::RedirectIn => "RedirectIn",
            Token::RedirectOut => "RedirectOut",
            Token::RedirectAppend => "RedirectAppend",
            Token::RedirectErrOut => "RedirectErrOut",
            Token::RedirectErrAppend => "RedirectErrAppend",
            Token::RedirectBoth => "RedirectBoth",
            Token::Eof => "Eof",
        };
        let mut e: String = "syntax error: expected a filename after '".to_owned();
        e.append(op);
        e.append("', found ");
        e.append(name);
        Err(e)
    }

    /// Parses one command: words and redirects up to the next operator.
    pub fn parse_command(&mut self) -> (r: Result<SimpleCommand, String>)
        requires
            old(self).wf(),
        ensures
            final(self).wf(),
            final(self).stream() == old(self).stream(),
            agrees(
                r,
                final(self).at(),
                command_at(old(self).stream(), old(self).at() as int, no_items()),
            ),
    {
        let ghost ts = self.stream();
        let ghost goal = command_at(ts, self.at() as int, no_items());
        let mut cmd = SimpleCommand { words: Vec::new(), redirects: Vec::new() };
        assert(cmd@ =~= no_items());
        loop
            invariant
                self.wf(),
                self.stream() == ts,
                ts == old(self).stream(),
                goal == command_at(ts, old(self).at() as int, no_items()),
                goal == command_at(ts, self.at() as int, cmd@),
            decreases ts.len() - self.at(),
        {
            let ghost before = cmd@;
            match self.peek() {
                Token::Word(w) => {
                    self.advance();
                    cmd.words.push(w);
                    assert(cmd@ =~= (Cmd { words: before.words.push(w@), ..before }));
                },
                Token::RedirectIn => {
                    self.advance();
                    let target: Word = match self.expect_word("<") {
                        Ok(w) => w,
                        Err(e) => {
                            return Err(e);
                        },
                    };
                    cmd.redirects.push(Redirect::In(target));
                },
                Token::RedirectOut => {
                    self.advance();
                    let target: Word = match self.expect_word(">") {
                        Ok(w) => w,
                        Err(e) => {
                            return Err(e);
                        },
                    };
                    cmd.redirects.push(Redirect::Out(target));
                },
                Token::RedirectAppend => {
                    self.advance();
                    let target: Word = match self.expect_word(">>") {
                        Ok(w) => w,
                        Err(e) => {
                            return Err(e);
                        },
                    };
                    cmd.redirects.push(Redirect::Append(target));
                },
                Token::RedirectErrOut => {
                    self.advance();
                    let target: Word = match self.expect_word("2>") {
                        Ok(w) => w,
                        Err(e) => {
                            return Err(e);
                        },
                    };
                    cmd.redirects.push(
                        if is_fd1_ref(&target) {
                            Redirect::ErrToStdout
                        } else {
                            Redirect::ErrOut(target)
                        },
                    );
                },
                Token::RedirectErrAppend => {
                    self.advance();
                    let target: Word = match self.expect_word("2>>") {
                        Ok(w) => w,
                        Err(e) => {
                            return Err(e);
                        },
                    };
                    cmd.redirects.push(
                        if is_fd1_ref(&target) {
                            Redirect::ErrToStdout
                        } else {
                            Redirect::ErrAppend(target)
                        },
                    );
                },
                Token::RedirectBoth => {
                    self.advance();
                    let target: Word = match self.expect_word("&>") {
                        Ok(w) => w,
                        Err(e) => {
                            return Err(e);
                        },
                    };
                    cmd.redirects.push(Redirect::Both(target));
                },
                _ => {
                    if cmd.words.len() == 0 && cmd.redirects.len() == 0 {
                        return Err("syntax error: expected a command".to_owned());
                    }
                    return Ok(cmd);
                },
            }
        }
    }

    /// Parses commands joined by `|`.
    pub fn parse_pipeline(&mut self) -> (r: Result<Node, String>)
        requires
            old(self).wf(),
        ensures
            final(self).wf(),
            final(self).stream() == old(self).stream(),
            agrees(
                r,
                final(self).at(),
                pipeline_at(old(self).stream(), old(self).at() as int),
            ),
    {
        let ghost ts = self.stream();
        let ghost goal = pipeline_at(ts, self.at() as int);
        let mut commands: Vec<SimpleCommand> = Vec::new();
        match self.parse_command() {
            Ok(c) => {
                commands.push(c);
                assert(commands_view(commands@) =~= seq![c@]);
            },
            Err(e) => {
                return Err(e);
            },
        }
        loop
            invariant
                self.wf(),
                self.stream() == ts,
                commands@.len() > 0,
                ts == old(self).stream(),
                goal == pipeline_at(ts, old(self).at() as int),
                goal == pipeline_rest(ts, self.at() as int, commands_view(commands@)),
            decreases ts.len() - self.at(),
        {
            match self.peek() {
                Token::Pipe => {
                    self.advance();
                    proof {
                        lemma_command_end(ts, self.at() as int, no_items());
                    }
                    match self.parse_command() {
                        Ok(c) => {
                            commands.push(c);
                        },
                        Err(e) => {
                            return Err(e);
                        },
                    }
                },
                _ => {
                    if commands.len() == 1 {
                        let c: SimpleCommand = commands.remove(0);
                        return Ok(Node::Command(c));
                    } else {
                        return Ok(Node::Pipeline(commands));
                    }
                },
            }
        }
    }

    /// Parses pipelines joined by `&&` and `||`.
    pub fn parse_and_or(&mut self) -> (r: Result<Node, String>)
        requires
            old(self).wf(),
        ensures
            final(self).wf(),
            final(self).stream() == old(self).stream(),
            agrees(
                r,
                final(self).at(),
                and_or_at(old(self).stream(), old(self).at() as int),
            ),
    {
        let ghost ts = self.stream();
        let ghost goal = and_or_at(ts, self.at() as int);
        let mut node: Node = match self.parse_pipeline() {
            Ok(n) => n,
            Err(e) => {
                return Err(e);
            },
        };
        loop
            invariant
                self.wf(),
                self.stream() == ts,
                ts == old(self).stream(),
                goal == and_or_at(ts, old(self).at() as int),
                goal == and_or_rest(ts, self.at() as int, node@),
            decreases ts.len() - self.at(),
        {
            match self.peek() {
                Token::And => {
                    self.advance();
                    proof {
                        lemma_pipeline_end(ts, self.at() as int);
                    }
                    match self.parse_pipeline() {
                        Ok(rhs) => {
                            node = Node::And(Box::new(node), Box::new(rhs));
                        },
                        Err(e) => {
                            return Err(e);
                        },
                    }
                },
                Token::Or => {
                    self.advance();
                    proof {
                        lemma_pipeline_end(ts, self.at() as int);
                    }
                    match self.parse_pipeline() {
                        Ok(rhs) => {
                            node = Node::Or(Box::new(node), Box::new(rhs));
                        },
                        Err(e) => {
                            return Err(e);
                        },
                    }
                },
                _ => {
                    return Ok(node);
                },
            }
        }
    }

    /// Parses chains joined by `;`.
    pub fn parse_sequence(&mut self) -> (r: Result<Node, String>)
        requires
            old(self).wf(),
        ensures
            final(self).wf(),
            final(self).stream() == old(self).stream(),
            agrees(
                r,
                final(self).at(),
                sequence_at(old(self).stream(), old(self).at() as int),
            ),
    {
        let ghost ts = self.stream();
        let ghost goal = sequence_at(ts, self.at() as int);
        let mut node: Node = match self.parse_and_or() {
            Ok(n) => n,
            Err(e) => {
                return Err(e);
            },
        };
        loop
            invariant
                self.wf(),
                self.stream() == ts,
                ts == old(self).stream(),
                goal == sequence_at(ts, old(self).at() as int),
                goal == sequence_rest(ts, self.at() as int, node@),
            decreases ts.len() - self.at(),
        {
            match self.peek() {
                Token::Semicolon => {
                    self.advance();
                    if let Token::Eof = self.peek() {
                        return Ok(node);
                    }
                    proof {
                        lemma_and_or_end(ts, self.at() as int);
                    }
                    match self.parse_and_or() {
                        Ok(rhs) => {
                            node = Node::Sequence(Box::new(node), Box::new(rhs));
                        },
                        Err(e) => {
                            return Err(e);
                        },
                    }
                },
                _ => {
                    return Ok(node);
                },
            }
        }
    }
}

/// Whether a redirect target is exactly `&1`, which stands for "duplicate onto
/// stdout" rather than for a file.
fn is_fd1_ref(word: &Word) -> (r: bool)
    ensures
        r == (text_of(word@) == "&1"@),
{
    word.reads("&1")
}

/// Parses a full line into a tree. `Ok(None)` means that there is nothing to
/// run; an empty pipeline stage, an operator with nothing behind it, or a
/// redirect with no target is an error, reported by its message.
pub fn parse(input: &str) -> (r: Result<Option<Node>, String>)
    ensures
        match parsed(input@) {
            Ok(None) => r is Ok && r->Ok_0 is None,
            Ok(Some(t)) => r is Ok && r->Ok_0 is Some && (r->Ok_0->0)@ == t,
            Err(e) => r is Err && r->Err_0@ == e,
        },
{
    let mut parser: Parser = Parser::new(lex(input));
    if let Token::Eof = parser.peek() {
        return Ok(None);
    }
    match parser.parse_sequence() {
        Ok(node) => Ok(Some(node)),
        Err(e) => Err(e),
    }
}

} // verus!
