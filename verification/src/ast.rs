//! The syntax tree of a command line.

use vstd::prelude::*;

use crate::word::{copy_words, words_view, Part, Word};

verus! {

/// A redirection and its target. The target is a full [`Word`], so it gets the
/// same quote tracking and expansion as any other word.
#[derive(Debug, PartialEq)]
pub enum Redirect {
    /// `< file`
    In(Word),
    /// `> file`
    Out(Word),
    /// `>> file`
    Append(Word),
    /// `2> file`
    ErrOut(Word),
    /// `2>> file`
    ErrAppend(Word),
    /// `2>&1`: stderr duplicated onto wherever stdout points. Only `&1` is
    /// recognized as such a target; any other `&N` is an ordinary filename.
    ErrToStdout,
    /// `&> file`: both stdout and stderr to the same target.
    Both(Word),
}

/// The model of a [`Redirect`].
#[verifier::ext_equal]
pub enum Redir {
    In(Seq<Part>),
    Out(Seq<Part>),
    Append(Seq<Part>),
    ErrOut(Seq<Part>),
    ErrAppend(Seq<Part>),
    ErrToStdout,
    Both(Seq<Part>),
}

impl View for Redirect {
    type V = Redir;

    open spec fn view(&self) -> Redir {
        match self {
            Redirect::In(w) => Redir::In(w@),
            Redirect::Out(w) => Redir::Out(w@),
            Redirect::Append(w) => Redir::Append(w@),
            Redirect::ErrOut(w) => Redir::ErrOut(w@),
            Redirect::ErrAppend(w) => Redir::ErrAppend(w@),
            Redirect::ErrToStdout => Redir::ErrToStdout,
            Redirect::Both(w) => Redir::Both(w@),
        }
    }
}

impl Clone for Redirect {
    fn clone(&self) -> (r: Self)
        ensures
            r@ == self@,
    {
        match self {
            Redirect::In(w) => Redirect::In(w.clone()),
            Redirect::Out(w) => Redirect::Out(w.clone()),
            Redirect::Append(w) => Redirect::Append(w.clone()),
            Redirect::ErrOut(w) => Redirect::ErrOut(w.clone()),
            Redirect::ErrAppend(w) => Redirect::ErrAppend(w.clone()),
            Redirect::ErrToStdout => Redirect::ErrToStdout,
            Redirect::Both(w) => Redirect::Both(w.clone()),
        }
    }
}

/// The models of a run of redirects.
pub open spec fn redirects_view(redirects: Seq<Redirect>) -> Seq<Redir> {
    redirects.map_values(|r: Redirect| r@)
}

pub broadcast proof fn lemma_redirects_push(v: Seq<Redirect>, x: Redirect)
    ensures
        #[trigger] redirects_view(v.push(x)) == redirects_view(v).push(x@),
{
    assert(redirects_view(v.push(x)) =~= redirects_view(v).push(x@));
}

/// Appends copies of `more` to `redirects`.
pub fn extend_redirects(redirects: &mut Vec<Redirect>, more: &[Redirect])
    ensures
        redirects_view(final(redirects)@) == redirects_view(old(redirects)@) + redirects_view(
            more@,
        ),
{
    let ghost first = redirects_view(redirects@);
    let ghost all = redirects_view(more@);
    let mut i: usize = 0;
    assert(first + all.take(0) =~= first);
    while i < more.len()
        invariant
            i <= more@.len(),
            all == redirects_view(more@),
            redirects_view(redirects@) == first + all.take(i as int),
        decreases more@.len() - i,
    {
        broadcast use lemma_redirects_push;

        let ghost done = redirects_view(redirects@);
        redirects.push(more[i].clone());
        assert(redirects_view(redirects@) == done.push(all[i as int]));
        i = i + 1;
        assert(redirects_view(redirects@) =~= first + all.take(i as int));
    }
    assert(all.take(i as int) =~= all);
}

/// One command: its words (name and arguments) and the redirections attached
/// to it.
#[derive(Debug, PartialEq)]
pub struct SimpleCommand {
    pub words: Vec<Word>,
    pub redirects: Vec<Redirect>,
}

/// The model of a [`SimpleCommand`].
#[verifier::ext_equal]
pub struct Cmd {
    pub words: Seq<Seq<Part>>,
    pub redirects: Seq<Redir>,
}

impl View for SimpleCommand {
    type V = Cmd;

    open spec fn view(&self) -> Cmd {
        Cmd { words: words_view(self.words@), redirects: redirects_view(self.redirects@) }
    }
}

impl Clone for SimpleCommand {
    fn clone(&self) -> (r: Self)
        ensures
            r@ == self@,
    {
        let words: Vec<Word> = copy_words(&self.words, 0);
        let mut redirects: Vec<Redirect> = Vec::new();
        extend_redirects(&mut redirects, &self.redirects);
        let r = SimpleCommand { words, redirects };
        assert(r@ =~= self@);
        r
    }
}

/// The models of a run of commands.
pub open spec fn commands_view(commands: Seq<SimpleCommand>) -> Seq<Cmd> {
    commands.map_values(|c: SimpleCommand| c@)
}

pub broadcast proof fn lemma_commands_push(v: Seq<SimpleCommand>, x: SimpleCommand)
    ensures
        #[trigger] commands_view(v.push(x)) == commands_view(v).push(x@),
{
    assert(commands_view(v.push(x)) =~= commands_view(v).push(x@));
}

/// A parsed command chain.
#[derive(Debug, PartialEq)]
pub enum Node {
    Command(SimpleCommand),
    Pipeline(Vec<SimpleCommand>),
    And(Box<Node>, Box<Node>),
    Or(Box<Node>, Box<Node>),
    Sequence(Box<Node>, Box<Node>),
}

/// The model of a [`Node`].
#[verifier::ext_equal]
pub enum Tree {
    Command(Cmd),
    Pipeline(Seq<Cmd>),
    And(Box<Tree>, Box<Tree>),
    Or(Box<Tree>, Box<Tree>),
    Sequence(Box<Tree>, Box<Tree>),
}

/// The model of `node`.
pub open spec fn tree_of(node: Node) -> Tree
    decreases node,
{
    match node {
        Node::Command(c) => Tree::Command(c@),
        Node::Pipeline(cs) => Tree::Pipeline(commands_view(cs@)),
        Node::And(l, r) => Tree::And(Box::new(tree_of(*l)), Box::new(tree_of(*r))),
        Node::Or(l, r) => Tree::Or(Box::new(tree_of(*l)), Box::new(tree_of(*r))),
        Node::Sequence(l, r) => Tree::Sequence(Box::new(tree_of(*l)), Box::new(tree_of(*r))),
    }
}

impl View for Node {
    type V = Tree;

    open spec fn view(&self) -> Tree {
        tree_of(*self)
    }
}

/// Copies of `commands`.
pub fn copy_commands(commands: &[SimpleCommand]) -> (r: Vec<SimpleCommand>)
    ensures
        commands_view(r@) == commands_view(commands@),
{
    let ghost all = commands_view(commands@);
    let mut out: Vec<SimpleCommand> = Vec::new();
    let mut i: usize = 0;
    assert(commands_view(out@) =~= all.take(0));
    while i < commands.len()
        invariant
            i <= commands@.len(),
            all == commands_view(commands@),
            commands_view(out@) == all.take(i as int),
        decreases commands@.len() - i,
    {
        broadcast use lemma_commands_push;

        let ghost done = commands_view(out@);
        out.push(commands[i].clone());
        assert(commands_view(out@) == done.push(all[i as int]));
        i = i + 1;
        assert(commands_view(out@) =~= all.take(i as int));
    }
    assert(all.take(i as int) =~= all);
    out
}

impl Clone for Node {
    fn clone(&self) -> (r: Self)
        ensures
            r@ == self@,
        decreases self,
    {
        match self {
            Node::Command(c) => Node::Command(c.clone()),
            Node::Pipeline(cs) => Node::Pipeline(copy_commands(cs)),
            Node::And(l, r) => Node::And(Box::new((**l).clone()), Box::new((**r).clone())),
            Node::Or(l, r) => Node::Or(Box::new((**l).clone()), Box::new((**r).clone())),
            Node::Sequence(l, r) => Node::Sequence(
                Box::new((**l).clone()),
                Box::new((**r).clone()),
            ),
        }
    }
}

} // verus!
