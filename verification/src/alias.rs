//! Aliases at the level of the syntax tree.
//!
//! Invoking an alias parses its value into a tree that takes the place of the
//! invocation. The caller's arguments go where the first word `$argv` stands, or,
//! if there is none, behind the words of the last command. Redirections written
//! at the invocation are attached to that same last command.

use vstd::prelude::*;

use crate::ast::{
    commands_view, extend_redirects, redirects_view, Cmd, Node, Redir, Redirect, SimpleCommand, Tree,
};
use crate::parser::{parse, parsed};
use crate::word::{lemma_words_push, text_of, words_view, Part, Word};

verus! {

// ---------------------------------------------------------------------
// What an invocation becomes
// ---------------------------------------------------------------------

/// The position of the first word at or after `i` that reads `$argv`, or the
/// number of words.
pub open spec fn argv_from(words: Seq<Seq<Part>>, i: int) -> int
    decreases words.len() - i,
{
    if i >= words.len() {
        words.len() as int
    } else if text_of(words[i]) == "$argv"@ {
        i
    } else {
        argv_from(words, i + 1)
    }
}

/// Whether a word of `cmd` reads `$argv`.
pub open spec fn takes_args(cmd: Cmd) -> bool {
    argv_from(cmd.words, 0) < cmd.words.len()
}

/// `cmd` with `args` in place of its first `$argv`.
pub open spec fn spliced(cmd: Cmd, args: Seq<Seq<Part>>) -> Cmd {
    let p = argv_from(cmd.words, 0);
    Cmd { words: cmd.words.take(p) + args + cmd.words.skip(p + 1), ..cmd }
}

/// `cmd` with words and redirections added at the end.
pub open spec fn extended(cmd: Cmd, words: Seq<Seq<Part>>, redirects: Seq<Redir>) -> Cmd {
    Cmd { words: cmd.words + words, redirects: cmd.redirects + redirects }
}

/// `cmd` with `args` in place of its first `$argv`, or else at its end.
pub open spec fn command_with_args(cmd: Cmd, args: Seq<Seq<Part>>) -> Cmd {
    if takes_args(cmd) {
        spliced(cmd, args)
    } else {
        extended(cmd, args, Seq::empty())
    }
}

/// The first stage at or after `i` that takes arguments, or the number of
/// stages.
pub open spec fn taker_from(stages: Seq<Cmd>, i: int) -> int
    decreases stages.len() - i,
{
    if i >= stages.len() {
        stages.len() as int
    } else if takes_args(stages[i]) {
        i
    } else {
        taker_from(stages, i + 1)
    }
}

/// `tree` with `args` in place of the first `$argv`, in evaluation order, if
/// there is one.
pub open spec fn tree_spliced(tree: Tree, args: Seq<Seq<Part>>) -> Option<Tree>
    decreases tree,
{
    match tree {
        Tree::Command(cmd) => if takes_args(cmd) {
            Some(Tree::Command(spliced(cmd, args)))
        } else {
            None
        },
        Tree::Pipeline(stages) => {
            let p = taker_from(stages, 0);
            if p < stages.len() {
                Some(Tree::Pipeline(stages.update(p, spliced(stages[p], args))))
            } else {
                None
            }
        },
        Tree::And(l, r) => match tree_spliced(*l, args) {
            Some(t) => Some(Tree::And(Box::new(t), r)),
            None => match tree_spliced(*r, args) {
                Some(t) => Some(Tree::And(l, Box::new(t))),
                None => None,
            },
        },
        Tree::Or(l, r) => match tree_spliced(*l, args) {
            Some(t) => Some(Tree::Or(Box::new(t), r)),
            None => match tree_spliced(*r, args) {
                Some(t) => Some(Tree::Or(l, Box::new(t))),
                None => None,
            },
        },
        Tree::Sequence(l, r) => match tree_spliced(*l, args) {
            Some(t) => Some(Tree::Sequence(Box::new(t), r)),
            None => match tree_spliced(*r, args) {
                Some(t) => Some(Tree::Sequence(l, Box::new(t))),
                None => None,
            },
        },
    }
}

/// `tree` with words and redirections added to its last command.
pub open spec fn tree_extended(tree: Tree, words: Seq<Seq<Part>>, redirects: Seq<Redir>) -> Tree
    decreases tree,
{
    match tree {
        Tree::Command(cmd) => Tree::Command(extended(cmd, words, redirects)),
        Tree::Pipeline(stages) => if stages.len() > 0 {
            Tree::Pipeline(
                stages.update(stages.len() - 1, extended(stages.last(), words, redirects)),
            )
        } else {
            tree
        },
        Tree::And(l, r) => Tree::And(l, Box::new(tree_extended(*r, words, redirects))),
        Tree::Or(l, r) => Tree::Or(l, Box::new(tree_extended(*r, words, redirects))),
        Tree::Sequence(l, r) => Tree::Sequence(l, Box::new(tree_extended(*r, words, redirects))),
    }
}

/// `tree` with `args` in place of the first `$argv`, or else behind its last
/// command.
pub open spec fn tree_with_args(tree: Tree, args: Seq<Seq<Part>>) -> Tree {
    match tree_spliced(tree, args) {
        Some(t) => t,
        None => tree_extended(tree, args, Seq::empty()),
    }
}

/// The tree that runs when an alias with the given value is invoked.
pub open spec fn invocation_tree(
    value: Tree,
    args: Seq<Seq<Part>>,
    redirects: Seq<Redir>,
) -> Tree {
    tree_extended(tree_with_args(value, args), Seq::empty(), redirects)
}

/// What is said of an alias whose value does not parse.
pub open spec fn bad_alias(name: Seq<char>, message: Seq<char>) -> Seq<char> {
    "alias '"@ + name + "': "@ + message
}

// ---------------------------------------------------------------------
// Commands
// ---------------------------------------------------------------------

/// Appends copies of `more` to `words`.
pub fn extend_words(words: &mut Vec<Word>, more: &[Word])
    ensures
        words_view(final(words)@) == words_view(old(words)@) + words_view(more@),
{
    let ghost first = words_view(words@);
    let ghost all = words_view(more@);
    let mut i: usize = 0;
    assert(first + all.take(0) =~= first);
    while i < more.len()
        invariant
            i <= more@.len(),
            all == words_view(more@),
            words_view(words@) == first + all.take(i as int),
        decreases more@.len() - i,
    {
        broadcast use lemma_words_push;

        let ghost done = words_view(words@);
        words.push(more[i].clone());
        assert(words_view(words@) == done.push(all[i as int]));
        i = i + 1;
        assert(words_view(words@) =~= first + all.take(i as int));
    }
    assert(all.take(i as int) =~= all);
}

/// Puts `args` in place of the first `$argv` of `cmd`. Tells whether there was
/// one; if not, the command stays as it is.
pub fn try_splice_argv_into_command(cmd: &mut SimpleCommand, args: &[Word]) -> (r: bool)
    ensures
        r == takes_args(old(cmd)@),
        final(cmd)@ == (if r {
            spliced(old(cmd)@, words_view(args@))
        } else {
            old(cmd)@
        }),
{
    let ghost words = words_view(cmd.words@);
    let mut p: usize = 0;
    while p < cmd.words.len() && !cmd.words[p].reads("$argv")
        invariant
            *cmd == *old(cmd),
            words == words_view(cmd.words@),
            p <= words.len(),
            argv_from(words, p as int) == argv_from(words, 0),
        decreases words.len() - p,
    {
        p = p + 1;
    }
    if p >= cmd.words.len() {
        return false;
    }
    assert(words[p as int] == cmd.words@[p as int]@);
    let mut rest: Vec<Word> = cmd.words.split_off(p + 1);
    cmd.words.truncate(p);
    let ghost tail = words_view(rest@);
    assert(words_view(cmd.words@) =~= words.take(p as int));
    assert(tail =~= words.skip(p + 1));
    extend_words(&mut cmd.words, args);
    let ghost head = words_view(cmd.words@);
    cmd.words.append(&mut rest);
    assert(words_view(cmd.words@) =~= head + tail);
    assert(cmd@ =~= spliced(old(cmd)@, words_view(args@)));
    true
}

/// Puts `args` in place of the first `$argv` of `cmd`, or else at its end.
pub fn insert_args_into_command(cmd: &mut SimpleCommand, args: &[Word])
    ensures
        final(cmd)@ == command_with_args(old(cmd)@, words_view(args@)),
{
    if !try_splice_argv_into_command(cmd, args) {
        extend_words(&mut cmd.words, args);
        assert(cmd@ =~= extended(old(cmd)@, words_view(args@), Seq::empty()));
    }
}

// ---------------------------------------------------------------------
// Trees
// ---------------------------------------------------------------------

/// Puts `args` in place of the first `$argv` of the first stage that has one.
fn try_splice_argv_into_stages(stages: &mut Vec<SimpleCommand>, args: &[Word]) -> (r: bool)
    ensures
        ({
            let before = commands_view(old(stages)@);
            let p = taker_from(before, 0);
            &&& r == (p < before.len())
            &&& commands_view(final(stages)@) == (if r {
                before.update(p, spliced(before[p], words_view(args@)))
            } else {
                before
            })
        }),
{
    let ghost before = commands_view(stages@);
    let mut i: usize = 0;
    while i < stages.len()
        invariant
            before == commands_view(old(stages)@),
            commands_view(stages@) == before,
            i <= before.len(),
            taker_from(before, i as int) == taker_from(before, 0),
        decreases before.len() - i,
    {
        assert(before[i as int] == stages@[i as int]@);
        let ghost stage = stages@[i as int]@;
        let found: bool = try_splice_argv_into_command(&mut stages[i], args);
        if found {
            assert(commands_view(stages@) =~= before.update(
                i as int,
                spliced(stage, words_view(args@)),
            ));
            return true;
        }
        assert(commands_view(stages@) =~= before);
        i = i + 1;
    }
    false
}

/// Searches the tree in evaluation order for the first word that reads `$argv`
/// and puts `args` in its place. Tells whether there was one; if not, the tree
/// stays as it is.
pub fn try_splice_argv(node: &mut Node, args: &[Word]) -> (r: bool)
    ensures
        r == tree_spliced(old(node)@, words_view(args@)) is Some,
        final(node)@ == (if r {
            tree_spliced(old(node)@, words_view(args@))->0
        } else {
            old(node)@
        }),
    decreases *old(node),
{
    match node {
        Node::Command(cmd) => try_splice_argv_into_command(cmd, args),
        Node::Pipeline(stages) => try_splice_argv_into_stages(stages, args),
        Node::And(l, r) => try_splice_argv(l, args) || try_splice_argv(r, args),
        Node::Or(l, r) => try_splice_argv(l, args) || try_splice_argv(r, args),
        Node::Sequence(l, r) => try_splice_argv(l, args) || try_splice_argv(r, args),
    }
}

/// Adds words and redirections to the last command of the tree, in evaluation
/// order: where textual substitution would put what follows the aliased name.
pub fn edit_last_command(node: &mut Node, words: &[Word], redirects: &[Redirect])
    ensures
        final(node)@ == tree_extended(
            old(node)@,
            words_view(words@),
            redirects_view(redirects@),
        ),
    decreases *old(node),
{
    match node {
        Node::Command(cmd) => {
            extend_words(&mut cmd.words, words);
            extend_redirects(&mut cmd.redirects, redirects);
        },
        Node::Pipeline(stages) => {
            let n: usize = stages.len();
            let ghost before = commands_view(stages@);
            if n > 0 {
                let ghost last = stages@[n - 1]@;
                assert(before.last() == last);
                extend_words(&mut stages[n - 1].words, words);
                extend_redirects(&mut stages[n - 1].redirects, redirects);
                assert(commands_view(stages@) =~= before.update(
                    n - 1,
                    extended(last, words_view(words@), redirects_view(redirects@)),
                ));
            }
        },
        Node::And(_, r) => edit_last_command(r, words, redirects),
        Node::Or(_, r) => edit_last_command(r, words, redirects),
        Node::Sequence(_, r) => edit_last_command(r, words, redirects),
    }
}

/// Inserts `args` into the tree of an alias: in place of the first `$argv`, or
/// else behind its last command.
pub fn insert_args_into_node(node: Node, args: &[Word]) -> (r: Node)
    ensures
        r@ == tree_with_args(node@, words_view(args@)),
{
    let mut node = node;
    if !try_splice_argv(&mut node, args) {
        let none: Vec<Redirect> = Vec::new();
        edit_last_command(&mut node, args, &none);
        assert(redirects_view(none@) =~= Seq::empty());
    }
    node
}

/// Attaches redirections written at the invocation to the last command.
pub fn attach_redirects_to_last_command(node: &mut Node, redirects: &[Redirect])
    ensures
        final(node)@ == tree_extended(old(node)@, Seq::empty(), redirects_view(redirects@)),
{
    let none: Vec<Word> = Vec::new();
    edit_last_command(node, &none, redirects);
    assert(words_view(none@) =~= Seq::empty());
}

/// Builds the tree that an invocation of the alias `name` runs: the value,
/// parsed like typed input, with the caller's arguments and redirections.
/// `Ok(None)` if the value is empty, a message if it does not parse.
pub fn build_alias_invocation(
    name: &str,
    value: &str,
    args: &[Word],
    site_redirects: &[Redirect],
) -> (r: Result<Option<Node>, String>)
    ensures
        match parsed(value@) {
            Ok(None) => r is Ok && r->Ok_0 is None,
            Ok(Some(t)) => r is Ok && r->Ok_0 is Some && (r->Ok_0->0)@ == invocation_tree(
                t,
                words_view(args@),
                redirects_view(site_redirects@),
            ),
            Err(e) => r is Err && r->Err_0@ == bad_alias(name@, e),
        },
{
    match parse(value) {
        Ok(Some(node)) => {
            let mut node = insert_args_into_node(node, args);
            attach_redirects_to_last_command(&mut node, site_redirects);
            Ok(Some(node))
        },
        Ok(None) => Ok(None),
        Err(e) => {
            let mut message: String = "alias '".to_owned();
            message.append(name);
            message.append("': ");
            message.append(&e);
            Err(message)
        },
    }
}

// ---------------------------------------------------------------------
// Laws
// ---------------------------------------------------------------------

/// The commands of a tree in evaluation order.
pub open spec fn commands_of(tree: Tree) -> Seq<Cmd>
    decreases tree,
{
    match tree {
        Tree::Command(cmd) => seq![cmd],
        Tree::Pipeline(stages) => stages,
        Tree::And(l, r) => commands_of(*l) + commands_of(*r),
        Tree::Or(l, r) => commands_of(*l) + commands_of(*r),
        Tree::Sequence(l, r) => commands_of(*l) + commands_of(*r),
    }
}

proof fn lemma_taker_from(stages: Seq<Cmd>, i: int)
    requires
        0 <= i <= stages.len(),
    ensures
        i <= taker_from(stages, i) <= stages.len(),
        taker_from(stages, i) < stages.len() ==> takes_args(stages[taker_from(stages, i)]),
        forall|k: int| i <= k < taker_from(stages, i) ==> !takes_args(#[trigger] stages[k]),
    decreases stages.len() - i,
{
    if i < stages.len() && !takes_args(stages[i]) {
        lemma_taker_from(stages, i + 1);
    }
}

proof fn lemma_taker_is(stages: Seq<Cmd>, i: int, p: int)
    requires
        0 <= i <= p <= stages.len(),
        forall|k: int| i <= k < p ==> !takes_args(#[trigger] stages[k]),
        p == stages.len() || takes_args(stages[p]),
    ensures
        taker_from(stages, i) == p,
    decreases p - i,
{
    if i < p {
        lemma_taker_is(stages, i + 1, p);
    }
}

proof fn lemma_taker_add(a: Seq<Cmd>, b: Seq<Cmd>)
    ensures
        taker_from(a + b, 0) == if taker_from(a, 0) < a.len() {
            taker_from(a, 0)
        } else {
            a.len() + taker_from(b, 0)
        },
{
    lemma_taker_from(a, 0);
    lemma_taker_from(b, 0);
    let p = taker_from(a, 0);
    let q = taker_from(b, 0);
    if p < a.len() {
        assert((a + b)[p] == a[p]);
        lemma_taker_is(a + b, 0, p);
    } else {
        assert forall|k: int| 0 <= k < a.len() + q implies !takes_args(#[trigger] (a + b)[k]) by {
            if k < a.len() {
                assert((a + b)[k] == a[k]);
            } else {
                assert((a + b)[k] == b[k - a.len()]);
            }
        }
        if q < b.len() {
            assert((a + b)[a.len() + q] == b[q]);
        }
        lemma_taker_is(a + b, 0, a.len() + q);
    }
}

/// Arguments replace the first `$argv` in evaluation order. No other command is
/// touched, and none at all if there is no `$argv`.
pub proof fn law_args_replace_first_argv(tree: Tree, args: Seq<Seq<Part>>)
    ensures
        ({
            let all = commands_of(tree);
            let p = taker_from(all, 0);
            let r = tree_spliced(tree, args);
            &&& r is Some <==> p < all.len()
            &&& r is Some ==> commands_of(r->0) == all.update(p, spliced(all[p], args))
        }),
    decreases tree,
{
    match tree {
        Tree::Command(cmd) => {
            if takes_args(cmd) {
                lemma_taker_is(seq![cmd], 0, 0);
            } else {
                lemma_taker_is(seq![cmd], 0, 1);
            }
            assert(seq![spliced(cmd, args)] =~= seq![cmd].update(0, spliced(cmd, args)));
        },
        Tree::Pipeline(stages) => {},
        Tree::And(l, r) => {
            law_args_replace_first_argv(*l, args);
            law_args_replace_first_argv(*r, args);
            lemma_splice_sides(*l, *r, args);
        },
        Tree::Or(l, r) => {
            law_args_replace_first_argv(*l, args);
            law_args_replace_first_argv(*r, args);
            lemma_splice_sides(*l, *r, args);
        },
        Tree::Sequence(l, r) => {
            law_args_replace_first_argv(*l, args);
            law_args_replace_first_argv(*r, args);
            lemma_splice_sides(*l, *r, args);
        },
    }
}

proof fn lemma_splice_sides(l: Tree, r: Tree, args: Seq<Seq<Part>>)
    ensures
        ({
            let a = commands_of(l);
            let b = commands_of(r);
            let p = taker_from(a, 0);
            let q = taker_from(b, 0);
            let all = a + b;
            let t = taker_from(all, 0);
            &&& p < a.len() ==> t == p && all.update(t, spliced(all[t], args)) == a.update(
                p,
                spliced(a[p], args),
            ) + b
            &&& p >= a.len() && q < b.len() ==> t == a.len() + q && all.update(
                t,
                spliced(all[t], args),
            ) == a + b.update(q, spliced(b[q], args))
            &&& p >= a.len() && q >= b.len() ==> t == all.len()
        }),
{
    let a = commands_of(l);
    let b = commands_of(r);
    let p = taker_from(a, 0);
    let q = taker_from(b, 0);
    let all = a + b;
    lemma_taker_add(a, b);
    lemma_taker_from(a, 0);
    lemma_taker_from(b, 0);
    if p < a.len() {
        assert(all[p] == a[p]);
        assert(all.update(p, spliced(all[p], args)) =~= a.update(p, spliced(a[p], args)) + b);
    } else if q < b.len() {
        let t = a.len() + q;
        assert(all[t] == b[q]);
        assert(all.update(t, spliced(all[t], args)) =~= a + b.update(q, spliced(b[q], args)));
    }
}

/// Without a `$argv`, arguments and redirections land on the last command in
/// evaluation order, behind what it already holds. No other command is touched.
pub proof fn law_additions_land_on_last_command(
    tree: Tree,
    words: Seq<Seq<Part>>,
    redirects: Seq<Redir>,
)
    requires
        no_empty_pipeline(tree),
    ensures
        ({
            let all = commands_of(tree);
            &&& all.len() > 0
            &&& commands_of(tree_extended(tree, words, redirects)) == all.update(
                all.len() - 1,
                extended(all.last(), words, redirects),
            )
        }),
    decreases tree,
{
    match tree {
        Tree::Command(cmd) => {
            assert(seq![extended(cmd, words, redirects)] =~= seq![cmd].update(
                0,
                extended(cmd, words, redirects),
            ));
        },
        Tree::Pipeline(stages) => {},
        Tree::And(l, r) => {
            law_additions_land_on_last_command(*r, words, redirects);
            lemma_last_of_sum(commands_of(*l), commands_of(*r), words, redirects);
        },
        Tree::Or(l, r) => {
            law_additions_land_on_last_command(*r, words, redirects);
            lemma_last_of_sum(commands_of(*l), commands_of(*r), words, redirects);
        },
        Tree::Sequence(l, r) => {
            law_additions_land_on_last_command(*r, words, redirects);
            lemma_last_of_sum(commands_of(*l), commands_of(*r), words, redirects);
        },
    }
}

proof fn lemma_last_of_sum(
    a: Seq<Cmd>,
    b: Seq<Cmd>,
    words: Seq<Seq<Part>>,
    redirects: Seq<Redir>,
)
    requires
        b.len() > 0,
    ensures
        (a + b).update((a + b).len() - 1, extended((a + b).last(), words, redirects)) == a
            + b.update(b.len() - 1, extended(b.last(), words, redirects)),
{
    assert((a + b).last() == b.last());
    assert((a + b).update((a + b).len() - 1, extended((a + b).last(), words, redirects)) =~= a
        + b.update(b.len() - 1, extended(b.last(), words, redirects)));
}

/// Whether every pipeline of the tree has a stage, as those that are parsed do.
pub open spec fn no_empty_pipeline(tree: Tree) -> bool
    decreases tree,
{
    match tree {
        Tree::Command(_) => true,
        Tree::Pipeline(stages) => stages.len() > 0,
        Tree::And(l, r) => no_empty_pipeline(*l) && no_empty_pipeline(*r),
        Tree::Or(l, r) => no_empty_pipeline(*l) && no_empty_pipeline(*r),
        Tree::Sequence(l, r) => no_empty_pipeline(*l) && no_empty_pipeline(*r),
    }
}

/// An alias that is invoked alone, and whose value does not ask for arguments,
/// is its value.
pub proof fn law_bare_invocation_is_the_value(tree: Tree)
    requires
        tree_spliced(tree, Seq::empty()) is None,
    ensures
        invocation_tree(tree, Seq::empty(), Seq::empty()) == tree,
{
    lemma_extended_by_nothing(tree);
}

/// To add nothing is to change nothing.
pub proof fn lemma_extended_by_nothing(tree: Tree)
    ensures
        tree_extended(tree, Seq::empty(), Seq::empty()) == tree,
    decreases tree,
{
    match tree {
        Tree::Command(cmd) => {
            assert(extended(cmd, Seq::empty(), Seq::empty()) =~= cmd);
        },
        Tree::Pipeline(stages) => {
            if stages.len() > 0 {
                assert(extended(stages.last(), Seq::empty(), Seq::empty()) =~= stages.last());
                assert(stages.update(stages.len() - 1, stages.last()) =~= stages);
            }
        },
        Tree::And(_, r) => lemma_extended_by_nothing(*r),
        Tree::Or(_, r) => lemma_extended_by_nothing(*r),
        Tree::Sequence(_, r) => lemma_extended_by_nothing(*r),
    }
}

/// Whether the word at `p` is the first of the words that reads `$argv`.
pub open spec fn first_argv(words: Seq<Seq<Part>>, p: int) -> bool {
    &&& 0 <= p < words.len()
    &&& text_of(words[p]) == "$argv"@
    &&& forall|k: int| 0 <= k < p ==> text_of(#[trigger] words[k]) != "$argv"@
}

/// Whether none of the words reads `$argv`.
pub open spec fn no_argv(words: Seq<Seq<Part>>) -> bool {
    forall|k: int| 0 <= k < words.len() ==> text_of(#[trigger] words[k]) != "$argv"@
}

proof fn lemma_argv_is(words: Seq<Seq<Part>>, i: int, p: int)
    requires
        0 <= i <= p <= words.len(),
        forall|k: int| i <= k < p ==> text_of(#[trigger] words[k]) != "$argv"@,
        p < words.len() ==> text_of(words[p]) == "$argv"@,
    ensures
        argv_from(words, i) == p,
    decreases p - i,
{
    if i < p {
        lemma_argv_is(words, i + 1, p);
    }
}

/// A command takes the arguments of a call in place of its first word `$argv`, and
/// if it has none, behind its last word. Nothing else about it changes.
pub proof fn law_command_takes_arguments(cmd: Cmd, args: Seq<Seq<Part>>, p: int)
    ensures
        no_argv(cmd.words) ==> command_with_args(cmd, args).words == cmd.words + args,
        first_argv(cmd.words, p) ==> command_with_args(cmd, args).words == cmd.words.take(p) + args
            + cmd.words.skip(p + 1),
        command_with_args(cmd, args).redirects == cmd.redirects,
{
    if no_argv(cmd.words) {
        lemma_argv_is(cmd.words, 0, cmd.words.len() as int);
    }
    if first_argv(cmd.words, p) {
        lemma_argv_is(cmd.words, 0, p);
    }
    assert(cmd.redirects + Seq::<Redir>::empty() =~= cmd.redirects);
}

/// Whether two trees have the same operators in the same places.
pub open spec fn same_shape(a: Tree, b: Tree) -> bool
    decreases a,
{
    match (a, b) {
        (Tree::Command(_), Tree::Command(_)) => true,
        (Tree::Pipeline(x), Tree::Pipeline(y)) => x.len() == y.len(),
        (Tree::And(l, r), Tree::And(m, s)) => same_shape(*l, *m) && same_shape(*r, *s),
        (Tree::Or(l, r), Tree::Or(m, s)) => same_shape(*l, *m) && same_shape(*r, *s),
        (Tree::Sequence(l, r), Tree::Sequence(m, s)) => same_shape(*l, *m) && same_shape(*r, *s),
        _ => false,
    }
}

proof fn lemma_shape_of_itself(a: Tree)
    ensures
        same_shape(a, a),
    decreases a,
{
    match a {
        Tree::And(l, r) => {
            lemma_shape_of_itself(*l);
            lemma_shape_of_itself(*r);
        },
        Tree::Or(l, r) => {
            lemma_shape_of_itself(*l);
            lemma_shape_of_itself(*r);
        },
        Tree::Sequence(l, r) => {
            lemma_shape_of_itself(*l);
            lemma_shape_of_itself(*r);
        },
        _ => {},
    }
}

proof fn lemma_shape_chain(a: Tree, b: Tree, c: Tree)
    requires
        same_shape(a, b),
        same_shape(b, c),
    ensures
        same_shape(a, c),
    decreases a,
{
    match (a, b, c) {
        (Tree::And(l, r), Tree::And(m, s), Tree::And(n, t)) => {
            lemma_shape_chain(*l, *m, *n);
            lemma_shape_chain(*r, *s, *t);
        },
        (Tree::Or(l, r), Tree::Or(m, s), Tree::Or(n, t)) => {
            lemma_shape_chain(*l, *m, *n);
            lemma_shape_chain(*r, *s, *t);
        },
        (Tree::Sequence(l, r), Tree::Sequence(m, s), Tree::Sequence(n, t)) => {
            lemma_shape_chain(*l, *m, *n);
            lemma_shape_chain(*r, *s, *t);
        },
        _ => {},
    }
}

proof fn lemma_splice_keeps_shape(tree: Tree, args: Seq<Seq<Part>>)
    ensures
        tree_spliced(tree, args) matches Some(t) ==> same_shape(tree, t),
    decreases tree,
{
    match tree {
        Tree::And(l, r) => {
            lemma_splice_keeps_shape(*l, args);
            lemma_splice_keeps_shape(*r, args);
            lemma_shape_of_itself(*l);
            lemma_shape_of_itself(*r);
        },
        Tree::Or(l, r) => {
            lemma_splice_keeps_shape(*l, args);
            lemma_splice_keeps_shape(*r, args);
            lemma_shape_of_itself(*l);
            lemma_shape_of_itself(*r);
        },
        Tree::Sequence(l, r) => {
            lemma_splice_keeps_shape(*l, args);
            lemma_splice_keeps_shape(*r, args);
            lemma_shape_of_itself(*l);
            lemma_shape_of_itself(*r);
        },
        Tree::Pipeline(stages) => lemma_taker_from(stages, 0),
        _ => {},
    }
}

proof fn lemma_additions_keep_shape(tree: Tree, words: Seq<Seq<Part>>, redirects: Seq<Redir>)
    ensures
        same_shape(tree, tree_extended(tree, words, redirects)),
    decreases tree,
{
    match tree {
        Tree::And(l, r) => {
            lemma_shape_of_itself(*l);
            lemma_additions_keep_shape(*r, words, redirects);
        },
        Tree::Or(l, r) => {
            lemma_shape_of_itself(*l);
            lemma_additions_keep_shape(*r, words, redirects);
        },
        Tree::Sequence(l, r) => {
            lemma_shape_of_itself(*l);
            lemma_additions_keep_shape(*r, words, redirects);
        },
        _ => {},
    }
}

/// A call keeps the operators of the value, each in its place.
pub proof fn law_call_keeps_operators(
    value: Tree,
    args: Seq<Seq<Part>>,
    redirects: Seq<Redir>,
)
    ensures
        same_shape(value, invocation_tree(value, args, redirects)),
{
    let full = tree_with_args(value, args);
    lemma_splice_keeps_shape(value, args);
    lemma_additions_keep_shape(value, args, Seq::empty());
    lemma_additions_keep_shape(full, Seq::empty(), redirects);
    lemma_shape_chain(value, full, invocation_tree(value, args, redirects));
}

proof fn lemma_splice_keeps_stages(tree: Tree, args: Seq<Seq<Part>>)
    requires
        no_empty_pipeline(tree),
    ensures
        tree_spliced(tree, args) matches Some(t) ==> no_empty_pipeline(t),
    decreases tree,
{
    match tree {
        Tree::And(l, r) => {
            lemma_splice_keeps_stages(*l, args);
            lemma_splice_keeps_stages(*r, args);
        },
        Tree::Or(l, r) => {
            lemma_splice_keeps_stages(*l, args);
            lemma_splice_keeps_stages(*r, args);
        },
        Tree::Sequence(l, r) => {
            lemma_splice_keeps_stages(*l, args);
            lemma_splice_keeps_stages(*r, args);
        },
        Tree::Pipeline(stages) => lemma_taker_from(stages, 0),
        _ => {},
    }
}

/// A call of a value without the word `$argv` puts the arguments and the
/// redirections of the call behind those of its last command.
pub proof fn law_call_without_argv_appends(
    value: Tree,
    args: Seq<Seq<Part>>,
    redirects: Seq<Redir>,
)
    requires
        no_empty_pipeline(value),
        forall|k: int|
            0 <= k < commands_of(value).len() ==> no_argv((#[trigger] commands_of(value)[k]).words),
    ensures
        ({
            let all = commands_of(value);
            let last = all.last();
            &&& all.len() > 0
            &&& commands_of(invocation_tree(value, args, redirects)) == all.drop_last().push(
                Cmd { words: last.words + args, redirects: last.redirects + redirects },
            )
        }),
{
    let all = commands_of(value);
    let n = all.len() - 1;
    assert forall|k: int| 0 <= k < all.len() implies !takes_args(#[trigger] all[k]) by {
        lemma_argv_is(all[k].words, 0, all[k].words.len() as int);
    }
    lemma_taker_is(all, 0, all.len() as int);
    law_args_replace_first_argv(value, args);
    law_additions_land_on_last_command(value, args, Seq::empty());
    let full = tree_with_args(value, args);
    lemma_extension_keeps_stages(value, args, Seq::empty());
    law_additions_land_on_last_command(full, Seq::empty(), redirects);
    let one = extended(all.last(), args, Seq::empty());
    assert(commands_of(full).last() == one);
    let both = extended(one, Seq::empty(), redirects);
    assert(both.words =~= all.last().words + args);
    assert(both.redirects =~= all.last().redirects + redirects);
    assert(commands_of(invocation_tree(value, args, redirects)) =~= all.drop_last().push(both));
}

proof fn lemma_extension_keeps_stages(tree: Tree, words: Seq<Seq<Part>>, redirects: Seq<Redir>)
    requires
        no_empty_pipeline(tree),
    ensures
        no_empty_pipeline(tree_extended(tree, words, redirects)),
    decreases tree,
{
    match tree {
        Tree::And(_, r) => lemma_extension_keeps_stages(*r, words, redirects),
        Tree::Or(_, r) => lemma_extension_keeps_stages(*r, words, redirects),
        Tree::Sequence(_, r) => lemma_extension_keeps_stages(*r, words, redirects),
        _ => {},
    }
}

/// A call of a value with the word `$argv` puts the arguments in place of the
/// first such word, in evaluation order. The redirections of the call go behind
/// those of the last command, and every other command stays as it is.
pub proof fn law_call_with_argv_splices(
    value: Tree,
    args: Seq<Seq<Part>>,
    redirects: Seq<Redir>,
    c: int,
    p: int,
)
    requires
        no_empty_pipeline(value),
        0 <= c < commands_of(value).len(),
        forall|k: int| 0 <= k < c ==> no_argv((#[trigger] commands_of(value)[k]).words),
        first_argv(commands_of(value)[c].words, p),
    ensures
        ({
            let all = commands_of(value);
            let taker = all[c];
            let spliced = all.update(
                c,
                Cmd {
                    words: taker.words.take(p) + args + taker.words.skip(p + 1),
                    redirects: taker.redirects,
                },
            );
            let last = spliced.last();
            commands_of(invocation_tree(value, args, redirects)) == spliced.drop_last().push(
                Cmd { words: last.words, redirects: last.redirects + redirects },
            )
        }),
{
    let all = commands_of(value);
    assert forall|k: int| 0 <= k < c implies !takes_args(#[trigger] all[k]) by {
        lemma_argv_is(all[k].words, 0, all[k].words.len() as int);
    }
    lemma_argv_is(all[c].words, 0, p);
    lemma_taker_is(all, 0, c);
    law_args_replace_first_argv(value, args);
    let full = tree_with_args(value, args);
    lemma_splice_keeps_stages(value, args);
    law_additions_land_on_last_command(full, Seq::empty(), redirects);
    let after = all.update(c, spliced(all[c], args));
    assert(commands_of(full) == after);
    let last = extended(after.last(), Seq::empty(), redirects);
    assert(last.words =~= after.last().words);
    assert(commands_of(invocation_tree(value, args, redirects)) =~= after.drop_last().push(last));
}

/// Arguments go into a tree as they do when it is called with them and with no
/// redirections.
pub proof fn law_arguments_go_in_as_in_a_call(value: Tree, args: Seq<Seq<Part>>)
    ensures
        tree_with_args(value, args) == invocation_tree(value, args, Seq::empty()),
        tree_spliced(value, args) matches Some(t) ==> t == tree_with_args(value, args),
{
    lemma_extended_by_nothing(tree_with_args(value, args));
}

/// A tree takes arguments in place of a word exactly if one of its words reads
/// `$argv`.
pub proof fn law_arguments_replace_a_word_if_there_is_one(value: Tree, args: Seq<Seq<Part>>)
    ensures
        tree_spliced(value, args) is None <==> forall|k: int|
            0 <= k < commands_of(value).len() ==> no_argv((#[trigger] commands_of(value)[k]).words),
{
    let all = commands_of(value);
    law_args_replace_first_argv(value, args);
    lemma_taker_from(all, 0);
    assert forall|k: int| 0 <= k < all.len() implies (takes_args(#[trigger] all[k]) <==> !no_argv(
        all[k].words,
    )) by {
        lemma_argv_found(all[k].words, 0);
    }
}

proof fn lemma_argv_found(words: Seq<Seq<Part>>, i: int)
    requires
        0 <= i <= words.len(),
    ensures
        argv_from(words, i) < words.len() <==> exists|k: int|
            i <= k < words.len() && text_of(#[trigger] words[k]) == "$argv"@,
    decreases words.len() - i,
{
    if i < words.len() && text_of(words[i]) != "$argv"@ {
        lemma_argv_found(words, i + 1);
    }
}

/// Words and redirections that are added to a command come behind those that it has.
pub proof fn law_additions_come_behind(cmd: Cmd, words: Seq<Seq<Part>>, redirects: Seq<Redir>)
    ensures
        tree_extended(Tree::Command(cmd), words, redirects) is Command,
        (tree_extended(Tree::Command(cmd), words, redirects)->Command_0).words == cmd.words + words,
        (tree_extended(Tree::Command(cmd), words, redirects)->Command_0).redirects
            == cmd.redirects + redirects,
        extended(cmd, words, redirects) == tree_extended(
            Tree::Command(cmd),
            words,
            redirects,
        )->Command_0,
        same_shape(Tree::Command(cmd), tree_extended(Tree::Command(cmd), words, redirects)),
{
}

/// What is added to a tree goes to its last command, and leaves its operators and all
/// its other commands as they are.
pub proof fn law_additions_go_to_the_last(
    tree: Tree,
    words: Seq<Seq<Part>>,
    redirects: Seq<Redir>,
)
    requires
        no_empty_pipeline(tree),
    ensures
        ({
            let all = commands_of(tree);
            let last = all.last();
            &&& all.len() > 0
            &&& commands_of(tree_extended(tree, words, redirects)) == all.drop_last().push(
                Cmd { words: last.words + words, redirects: last.redirects + redirects },
            )
            &&& same_shape(tree, tree_extended(tree, words, redirects))
        }),
{
    let all = commands_of(tree);
    law_additions_land_on_last_command(tree, words, redirects);
    lemma_additions_keep_shape(tree, words, redirects);
    assert(commands_of(tree_extended(tree, words, redirects)) =~= all.drop_last().push(
        extended(all.last(), words, redirects),
    ));
}

} // verus!
