//! Laws of the syntax tree.

use vstd::prelude::*;

use crate::alias::{commands_of, no_empty_pipeline};
use crate::ast::{Cmd, Redir, Tree};
use crate::lexer::{is_blank, lexed};
use crate::lexer_laws::{
    law_blanks_are_nothing, law_one_eof_at_the_end, law_statements_lex_apart, quotes_closed,
};
use crate::parser::{
    and_or_at, and_or_rest, command_at, lemma_and_or_end, lemma_command_end, lemma_pipeline_end,
    law_parse_leaves_nothing_over, no_items, parsed, pipeline_at, pipeline_rest, redirect_sign,
    redirect_to, sequence_at, sequence_rest, tok_at, token_name, tree_of_tokens,
};
use crate::word::{text_of, Part, Tok};

verus! {

// ---------------------------------------------------------------------
// Which inputs parse
// ---------------------------------------------------------------------

/// Whether a command can start with the token.
pub open spec fn starts_command(t: Tok) -> bool {
    t is Word || redirect_sign(t) is Some
}

/// Whether the token at `k` is where it may be: a redirection stands in front of
/// a word, and an operator between commands. A `;` may also stand at the end.
pub open spec fn in_place(ts: Seq<Tok>, k: int) -> bool {
    match tok_at(ts, k) {
        Tok::Word(_) => true,
        Tok::Eof => true,
        Tok::Pipe => tok_at(ts, k - 1) is Word && starts_command(tok_at(ts, k + 1)),
        Tok::And => tok_at(ts, k - 1) is Word && starts_command(tok_at(ts, k + 1)),
        Tok::Or => tok_at(ts, k - 1) is Word && starts_command(tok_at(ts, k + 1)),
        Tok::Semicolon => tok_at(ts, k - 1) is Word && (starts_command(tok_at(ts, k + 1))
            || tok_at(ts, k + 1) is Eof),
        _ => tok_at(ts, k + 1) is Word,
    }
}

/// Whether all tokens from `p` up to `q` are where they may be.
pub open spec fn all_in_place(ts: Seq<Tok>, p: int, q: int) -> bool {
    forall|k: int| p <= k < q ==> #[trigger] in_place(ts, k)
}

/// Whether some token at or after `p` is out of place.
pub open spec fn out_of_place(ts: Seq<Tok>, p: int) -> bool {
    exists|k: int| p <= k < ts.len() && !#[trigger] in_place(ts, k)
}

proof fn lemma_command_place(ts: Seq<Tok>, p: int, done: Cmd)
    requires
        0 <= p,
        done.words.len() > 0 || done.redirects.len() > 0 ==> tok_at(ts, p - 1) is Word,
    ensures
        match command_at(ts, p, done) {
            Ok((_, q)) => {
                &&& all_in_place(ts, p, q)
                &&& tok_at(ts, q - 1) is Word
                &&& !starts_command(tok_at(ts, q))
                &&& done == no_items() ==> starts_command(tok_at(ts, p))
            },
            Err(_) => out_of_place(ts, p) || (!starts_command(tok_at(ts, p))
                && done.words.len() == 0 && done.redirects.len() == 0),
        },
    decreases ts.len() - p,
{
    match tok_at(ts, p) {
        Tok::Word(w) => {
            let more = Cmd { words: done.words.push(w), ..done };
            lemma_command_place(ts, p + 1, more);
            lemma_command_end(ts, p + 1, more);
            assert(in_place(ts, p));
        },
        op => {
            if redirect_sign(op) is Some {
                match tok_at(ts, p + 1) {
                    Tok::Word(target) => {
                        let more = Cmd {
                            redirects: done.redirects.push(redirect_to(op, target)),
                            ..done
                        };
                        lemma_command_place(ts, p + 2, more);
                        lemma_command_end(ts, p + 2, more);
                        assert(in_place(ts, p));
                        assert(in_place(ts, p + 1));
                    },
                    _ => {
                        assert(!in_place(ts, p));
                    },
                }
            }
        },
    }
}

proof fn lemma_pipeline_rest_place(ts: Seq<Tok>, p: int, cmds: Seq<Cmd>)
    requires
        0 < p,
        tok_at(ts, p - 1) is Word,
        !starts_command(tok_at(ts, p)),
    ensures
        match pipeline_rest(ts, p, cmds) {
            Ok((_, q)) => {
                &&& p <= q
                &&& all_in_place(ts, p, q)
                &&& tok_at(ts, q - 1) is Word
                &&& !starts_command(tok_at(ts, q))
            },
            Err(_) => out_of_place(ts, p),
        },
    decreases ts.len() - p,
{
    if tok_at(ts, p) is Pipe {
        lemma_command_place(ts, p + 1, no_items());
        lemma_command_end(ts, p + 1, no_items());
        match command_at(ts, p + 1, no_items()) {
            Ok((c, q)) => {
                assert(in_place(ts, p));
                lemma_pipeline_rest_place(ts, q, cmds.push(c));
                if pipeline_rest(ts, q, cmds.push(c)) is Err {
                    let k = choose|k: int| q <= k < ts.len() && !#[trigger] in_place(ts, k);
                    assert(!in_place(ts, k));
                }
            },
            Err(_) => {
                if !out_of_place(ts, p + 1) {
                    assert(!in_place(ts, p));
                }
            },
        }
    }
}

proof fn lemma_pipeline_place(ts: Seq<Tok>, p: int)
    requires
        0 <= p,
    ensures
        match pipeline_at(ts, p) {
            Ok((_, q)) => {
                &&& p < q
                &&& all_in_place(ts, p, q)
                &&& tok_at(ts, q - 1) is Word
                &&& !starts_command(tok_at(ts, q))
                &&& starts_command(tok_at(ts, p))
            },
            Err(_) => out_of_place(ts, p) || !starts_command(tok_at(ts, p)),
        },
{
    lemma_command_place(ts, p, no_items());
    lemma_command_end(ts, p, no_items());
    if let Ok((c, q)) = command_at(ts, p, no_items()) {
        lemma_pipeline_rest_place(ts, q, seq![c]);
        if pipeline_rest(ts, q, seq![c]) is Err {
            let k = choose|k: int| q <= k < ts.len() && !#[trigger] in_place(ts, k);
            assert(!in_place(ts, k));
        }
    }
}

proof fn lemma_and_or_rest_place(ts: Seq<Tok>, p: int, left: Tree)
    requires
        0 < p,
        tok_at(ts, p - 1) is Word,
        !starts_command(tok_at(ts, p)),
    ensures
        match and_or_rest(ts, p, left) {
            Ok((_, q)) => {
                &&& p <= q
                &&& all_in_place(ts, p, q)
                &&& tok_at(ts, q - 1) is Word
                &&& !starts_command(tok_at(ts, q))
            },
            Err(_) => out_of_place(ts, p),
        },
    decreases ts.len() - p,
{
    if tok_at(ts, p) is And || tok_at(ts, p) is Or {
        lemma_pipeline_place(ts, p + 1);
        match pipeline_at(ts, p + 1) {
            Ok((right, q)) => {
                assert(in_place(ts, p));
                let more = if tok_at(ts, p) is And {
                    Tree::And(Box::new(left), Box::new(right))
                } else {
                    Tree::Or(Box::new(left), Box::new(right))
                };
                lemma_and_or_rest_place(ts, q, more);
                if and_or_rest(ts, q, more) is Err {
                    let k = choose|k: int| q <= k < ts.len() && !#[trigger] in_place(ts, k);
                    assert(!in_place(ts, k));
                }
            },
            Err(_) => {
                if !out_of_place(ts, p + 1) {
                    assert(!in_place(ts, p));
                }
            },
        }
    }
}

proof fn lemma_and_or_place(ts: Seq<Tok>, p: int)
    requires
        0 <= p,
    ensures
        match and_or_at(ts, p) {
            Ok((_, q)) => {
                &&& p < q
                &&& all_in_place(ts, p, q)
                &&& tok_at(ts, q - 1) is Word
                &&& !starts_command(tok_at(ts, q))
                &&& starts_command(tok_at(ts, p))
            },
            Err(_) => out_of_place(ts, p) || !starts_command(tok_at(ts, p)),
        },
{
    lemma_pipeline_place(ts, p);
    if let Ok((left, q)) = pipeline_at(ts, p) {
        lemma_and_or_rest_place(ts, q, left);
        if and_or_rest(ts, q, left) is Err {
            let k = choose|k: int| q <= k < ts.len() && !#[trigger] in_place(ts, k);
            assert(!in_place(ts, k));
        }
    }
}

proof fn lemma_sequence_rest_place(ts: Seq<Tok>, p: int, left: Tree)
    requires
        0 < p,
        tok_at(ts, p - 1) is Word,
        !starts_command(tok_at(ts, p)),
    ensures
        match sequence_rest(ts, p, left) {
            Ok((_, q)) => p <= q && all_in_place(ts, p, q),
            Err(_) => out_of_place(ts, p),
        },
    decreases ts.len() - p,
{
    if tok_at(ts, p) is Semicolon {
        if tok_at(ts, p + 1) is Eof {
            assert(in_place(ts, p));
        } else {
            lemma_and_or_place(ts, p + 1);
            match and_or_at(ts, p + 1) {
                Ok((right, q)) => {
                    assert(in_place(ts, p));
                    let more = Tree::Sequence(Box::new(left), Box::new(right));
                    lemma_sequence_rest_place(ts, q, more);
                    if sequence_rest(ts, q, more) is Err {
                        let k = choose|k: int| q <= k < ts.len() && !#[trigger] in_place(ts, k);
                        assert(!in_place(ts, k));
                    }
                },
                Err(_) => {
                    if !out_of_place(ts, p + 1) {
                        assert(!in_place(ts, p));
                    }
                },
            }
        }
    }
}

/// An input parses exactly if each of its tokens is where it may be: every
/// redirection in front of a word, every operator between two commands, but for
/// a `;` at the end.
pub proof fn law_parse_accepts_exactly(s: Seq<char>)
    ensures
        parsed(s) is Ok <==> all_in_place(lexed(s), 0, lexed(s).len() as int),
{
    let ts = lexed(s);
    law_one_eof_at_the_end(s);
    let n = ts.len() - 1;
    if tok_at(ts, 0) is Eof {
        assert(n == 0);
        assert(in_place(ts, 0));
    } else {
        lemma_and_or_place(ts, 0);
        match and_or_at(ts, 0) {
            Ok((left, q)) => {
                lemma_sequence_rest_place(ts, q, left);
                law_parse_leaves_nothing_over(ts, 0);
                match sequence_rest(ts, q, left) {
                    Ok((_, e)) => {
                        assert(sequence_at(ts, 0) == sequence_rest(ts, q, left));
                        assert(tok_at(ts, e) is Eof);
                        assert(e >= n);
                        assert forall|k: int| 0 <= k < ts.len() implies #[trigger] in_place(
                            ts,
                            k,
                        ) by {
                            if k == n {
                                assert(tok_at(ts, k) is Eof);
                            }
                        }
                    },
                    Err(_) => {
                        let k = choose|k: int| q <= k < ts.len() && !#[trigger] in_place(ts, k);
                        assert(!in_place(ts, k));
                    },
                }
            },
            Err(_) => {
                if out_of_place(ts, 0) {
                    let k = choose|k: int| 0 <= k < ts.len() && !#[trigger] in_place(ts, k);
                    assert(!in_place(ts, k));
                } else {
                    assert(!in_place(ts, 0));
                }
            },
        }
    }
}

/// An input of blanks parses to nothing.
pub proof fn law_blank_input_is_nothing(s: Seq<char>)
    requires
        forall|k: int| 0 <= k < s.len() ==> is_blank(#[trigger] s[k]),
    ensures
        parsed(s) == Ok::<Option<Tree>, Seq<char>>(None),
{
    law_blanks_are_nothing(s);
}

// ---------------------------------------------------------------------
// The shape of what is parsed
// ---------------------------------------------------------------------

/// Whether a command holds anything.
pub open spec fn not_bare(cmd: Cmd) -> bool {
    cmd.words.len() > 0 || cmd.redirects.len() > 0
}

/// A command, or at least two commands with pipes between them.
pub open spec fn is_pipeline(tree: Tree) -> bool {
    match tree {
        Tree::Command(cmd) => not_bare(cmd),
        Tree::Pipeline(cmds) => cmds.len() >= 2 && forall|k: int|
            0 <= k < cmds.len() ==> not_bare(#[trigger] cmds[k]),
        _ => false,
    }
}

/// Pipelines with `&&` and `||` between them, grouped to the left.
pub open spec fn is_and_or(tree: Tree) -> bool
    decreases tree,
{
    match tree {
        Tree::And(l, r) => is_and_or(*l) && is_pipeline(*r),
        Tree::Or(l, r) => is_and_or(*l) && is_pipeline(*r),
        _ => is_pipeline(tree),
    }
}

/// Chains of `&&` and `||` with `;` between them, grouped to the left.
pub open spec fn is_sequence(tree: Tree) -> bool
    decreases tree,
{
    match tree {
        Tree::Sequence(l, r) => is_sequence(*l) && is_and_or(*r),
        _ => is_and_or(tree),
    }
}

proof fn lemma_pipeline_rest_shape(ts: Seq<Tok>, p: int, cmds: Seq<Cmd>)
    requires
        cmds.len() > 0,
        forall|k: int| 0 <= k < cmds.len() ==> not_bare(#[trigger] cmds[k]),
    ensures
        pipeline_rest(ts, p, cmds) matches Ok((t, _)) ==> is_pipeline(t),
    decreases ts.len() - p,
{
    if tok_at(ts, p) is Pipe {
        lemma_command_end(ts, p + 1, no_items());
        if let Ok((c, q)) = command_at(ts, p + 1, no_items()) {
            let more = cmds.push(c);
            assert forall|k: int| 0 <= k < more.len() implies not_bare(#[trigger] more[k]) by {
                if k < cmds.len() {
                    assert(more[k] == cmds[k]);
                }
            }
            lemma_pipeline_rest_shape(ts, q, more);
        }
    } else {
        assert(not_bare(cmds[0]));
    }
}

proof fn lemma_pipeline_shape(ts: Seq<Tok>, p: int)
    ensures
        pipeline_at(ts, p) matches Ok((t, _)) ==> is_pipeline(t),
{
    lemma_command_end(ts, p, no_items());
    if let Ok((c, q)) = command_at(ts, p, no_items()) {
        lemma_pipeline_rest_shape(ts, q, seq![c]);
    }
}

proof fn lemma_and_or_rest_shape(ts: Seq<Tok>, p: int, left: Tree)
    requires
        is_and_or(left),
    ensures
        and_or_rest(ts, p, left) matches Ok((t, _)) ==> is_and_or(t),
    decreases ts.len() - p,
{
    if tok_at(ts, p) is And || tok_at(ts, p) is Or {
        lemma_pipeline_end(ts, p + 1);
        lemma_pipeline_shape(ts, p + 1);
        if let Ok((right, q)) = pipeline_at(ts, p + 1) {
            lemma_and_or_rest_shape(
                ts,
                q,
                if tok_at(ts, p) is And {
                    Tree::And(Box::new(left), Box::new(right))
                } else {
                    Tree::Or(Box::new(left), Box::new(right))
                },
            );
        }
    }
}

proof fn lemma_and_or_shape(ts: Seq<Tok>, p: int)
    ensures
        and_or_at(ts, p) matches Ok((t, _)) ==> is_and_or(t),
{
    lemma_pipeline_shape(ts, p);
    if let Ok((left, q)) = pipeline_at(ts, p) {
        lemma_and_or_rest_shape(ts, q, left);
    }
}

proof fn lemma_sequence_rest_shape(ts: Seq<Tok>, p: int, left: Tree)
    requires
        is_sequence(left),
    ensures
        sequence_rest(ts, p, left) matches Ok((t, _)) ==> is_sequence(t),
    decreases ts.len() - p,
{
    if tok_at(ts, p) is Semicolon && !(tok_at(ts, p + 1) is Eof) {
        lemma_and_or_end(ts, p + 1);
        lemma_and_or_shape(ts, p + 1);
        if let Ok((right, q)) = and_or_at(ts, p + 1) {
            lemma_sequence_rest_shape(
                ts,
                q,
                Tree::Sequence(Box::new(left), Box::new(right)),
            );
        }
    }
}

/// Pipes bind tighter than `&&` and `||`, which bind tighter than `;`, and all
/// operators group to the left. No command is empty, and no pipeline has fewer
/// than two stages.
pub proof fn law_parse_groups_by_precedence(s: Seq<char>, tree: Tree)
    requires
        parsed(s) == Ok::<Option<Tree>, Seq<char>>(Some(tree)),
    ensures
        is_sequence(tree),
        no_empty_pipeline(tree),
{
    let ts = lexed(s);
    lemma_and_or_shape(ts, 0);
    if let Ok((left, q)) = and_or_at(ts, 0) {
        assert(is_sequence(left)) by {
            assert(is_and_or(left));
            if left is Sequence {
                assert(!is_and_or(left));
            }
        }
        lemma_sequence_rest_shape(ts, q, left);
    }
    lemma_sequence_has_stages(tree);
}

proof fn lemma_sequence_has_stages(tree: Tree)
    requires
        is_sequence(tree) || is_and_or(tree),
    ensures
        no_empty_pipeline(tree),
    decreases tree,
{
    match tree {
        Tree::And(l, r) => {
            lemma_sequence_has_stages(*l);
            assert(is_and_or(*r));
            lemma_sequence_has_stages(*r);
        },
        Tree::Or(l, r) => {
            lemma_sequence_has_stages(*l);
            assert(is_and_or(*r));
            lemma_sequence_has_stages(*r);
        },
        Tree::Sequence(l, r) => {
            lemma_sequence_has_stages(*l);
            lemma_sequence_has_stages(*r);
        },
        _ => {},
    }
}

// ---------------------------------------------------------------------
// Nothing is lost
// ---------------------------------------------------------------------

/// The words among the tokens from `p` up to `q` that are not the target of a
/// redirection.
pub open spec fn words_between(ts: Seq<Tok>, p: int, q: int) -> Seq<Seq<Part>>
    decreases q - p,
{
    if p >= q {
        Seq::empty()
    } else {
        let rest = words_between(ts, p + 1, q);
        match tok_at(ts, p) {
            Tok::Word(w) => if redirect_sign(tok_at(ts, p - 1)) is None {
                seq![w] + rest
            } else {
                rest
            },
            _ => rest,
        }
    }
}

/// The redirections that the tokens from `p` up to `q` write.
pub open spec fn redirects_between(ts: Seq<Tok>, p: int, q: int) -> Seq<Redir>
    decreases q - p,
{
    if p >= q {
        Seq::empty()
    } else {
        let rest = redirects_between(ts, p + 1, q);
        if redirect_sign(tok_at(ts, p)) is Some {
            seq![redirect_to(tok_at(ts, p), tok_at(ts, p + 1)->Word_0)] + rest
        } else {
            rest
        }
    }
}

/// Whether the token at `k` stands between two commands.
pub open spec fn divides(ts: Seq<Tok>, k: int) -> bool {
    match tok_at(ts, k) {
        Tok::Pipe => true,
        Tok::And => true,
        Tok::Or => true,
        Tok::Semicolon => !(tok_at(ts, k + 1) is Eof),
        _ => false,
    }
}

/// How many of the tokens from `p` up to `q` stand between two commands.
pub open spec fn dividers_between(ts: Seq<Tok>, p: int, q: int) -> nat
    decreases q - p,
{
    if p >= q {
        0
    } else if divides(ts, p) {
        1 + dividers_between(ts, p + 1, q)
    } else {
        dividers_between(ts, p + 1, q)
    }
}

/// All words of the commands, in order.
pub open spec fn words_in(cmds: Seq<Cmd>) -> Seq<Seq<Part>>
    decreases cmds.len(),
{
    if cmds.len() == 0 {
        Seq::empty()
    } else {
        words_in(cmds.drop_last()) + cmds.last().words
    }
}

/// All redirections of the commands, in order.
pub open spec fn redirects_in(cmds: Seq<Cmd>) -> Seq<Redir>
    decreases cmds.len(),
{
    if cmds.len() == 0 {
        Seq::empty()
    } else {
        redirects_in(cmds.drop_last()) + cmds.last().redirects
    }
}

/// Whether the commands hold exactly what the tokens from `p` up to `q` write, and
/// there is one more of them than there are dividers.
spec fn holds(ts: Seq<Tok>, p: int, q: int, cmds: Seq<Cmd>) -> bool {
    &&& words_in(cmds) == words_between(ts, p, q)
    &&& redirects_in(cmds) == redirects_between(ts, p, q)
    &&& cmds.len() == 1 + dividers_between(ts, p, q)
}

proof fn lemma_between_add(ts: Seq<Tok>, p: int, q: int, r: int)
    requires
        p <= q <= r,
    ensures
        words_between(ts, p, r) == words_between(ts, p, q) + words_between(ts, q, r),
        redirects_between(ts, p, r) == redirects_between(ts, p, q) + redirects_between(ts, q, r),
        dividers_between(ts, p, r) == dividers_between(ts, p, q) + dividers_between(ts, q, r),
    decreases q - p,
{
    if p < q {
        lemma_between_add(ts, p + 1, q, r);
    }
    assert(words_between(ts, p, r) =~= words_between(ts, p, q) + words_between(ts, q, r));
    assert(redirects_between(ts, p, r) =~= redirects_between(ts, p, q) + redirects_between(
        ts,
        q,
        r,
    ));
}

proof fn lemma_in_add(a: Seq<Cmd>, b: Seq<Cmd>)
    ensures
        words_in(a + b) == words_in(a) + words_in(b),
        redirects_in(a + b) == redirects_in(a) + redirects_in(b),
    decreases b.len(),
{
    if b.len() == 0 {
        assert(a + b =~= a);
        assert(words_in(a) + words_in(b) =~= words_in(a));
        assert(redirects_in(a) + redirects_in(b) =~= redirects_in(a));
    } else {
        lemma_in_add(a, b.drop_last());
        assert((a + b).drop_last() =~= a + b.drop_last());
        assert((a + b).last() == b.last());
        assert(words_in(a + b) =~= words_in(a) + words_in(b));
        assert(redirects_in(a + b) =~= redirects_in(a) + redirects_in(b));
    }
}

proof fn lemma_in_one(c: Cmd)
    ensures
        words_in(seq![c]) == c.words,
        redirects_in(seq![c]) == c.redirects,
{
    let one = seq![c];
    assert(one.drop_last() =~= Seq::empty());
    assert(words_in(one.drop_last()) + c.words =~= c.words);
    assert(redirects_in(one.drop_last()) + c.redirects =~= c.redirects);
}

/// A command holds what it held, and what the tokens it takes write.
proof fn lemma_command_holds(ts: Seq<Tok>, p: int, done: Cmd)
    requires
        redirect_sign(tok_at(ts, p - 1)) is None,
    ensures
        command_at(ts, p, done) matches Ok((c, q)) ==> {
            &&& c.words == done.words + words_between(ts, p, q)
            &&& c.redirects == done.redirects + redirects_between(ts, p, q)
            &&& dividers_between(ts, p, q) == 0
        },
    decreases ts.len() - p,
{
    match tok_at(ts, p) {
        Tok::Word(w) => {
            let more = Cmd { words: done.words.push(w), ..done };
            lemma_command_holds(ts, p + 1, more);
            lemma_command_end(ts, p + 1, more);
            if let Ok((c, q)) = command_at(ts, p, done) {
                assert(words_between(ts, p, q) == seq![w] + words_between(ts, p + 1, q));
                assert(c.words =~= done.words + words_between(ts, p, q));
            }
        },
        op => {
            if redirect_sign(op) is Some {
                if let Tok::Word(target) = tok_at(ts, p + 1) {
                    let more = Cmd {
                        redirects: done.redirects.push(redirect_to(op, target)),
                        ..done
                    };
                    lemma_command_holds(ts, p + 2, more);
                    lemma_command_end(ts, p + 2, more);
                    if let Ok((c, q)) = command_at(ts, p, done) {
                        assert(words_between(ts, p, q) == words_between(ts, p + 1, q));
                        assert(words_between(ts, p + 1, q) == words_between(ts, p + 2, q));
                        assert(redirects_between(ts, p + 1, q) == redirects_between(ts, p + 2, q));
                        assert(redirects_between(ts, p, q) == seq![redirect_to(op, target)]
                            + redirects_between(ts, p + 1, q));
                        assert(c.redirects =~= done.redirects + redirects_between(ts, p, q));
                        assert(dividers_between(ts, p + 1, q) == dividers_between(ts, p + 2, q));
                    }
                }
            } else if let Ok((c, q)) = command_at(ts, p, done) {
                assert(c.words =~= done.words + words_between(ts, p, q));
                assert(c.redirects =~= done.redirects + redirects_between(ts, p, q));
            }
        },
    }
}

/// A command that starts behind a divider, or at the start, holds what the tokens
/// it takes write.
proof fn lemma_fresh_command(ts: Seq<Tok>, p: int)
    requires
        redirect_sign(tok_at(ts, p - 1)) is None,
    ensures
        command_at(ts, p, no_items()) matches Ok((c, q)) ==> p < q && holds(ts, p, q, seq![c]),
{
    lemma_command_holds(ts, p, no_items());
    lemma_command_end(ts, p, no_items());
    if let Ok((c, q)) = command_at(ts, p, no_items()) {
        lemma_in_one(c);
        assert(no_items().words + words_between(ts, p, q) =~= words_between(ts, p, q));
        assert(no_items().redirects + redirects_between(ts, p, q) =~= redirects_between(ts, p, q));
    }
}

/// What stands left and right of a divider, together.
proof fn lemma_holds_both(ts: Seq<Tok>, p: int, k: int, q: int, a: Seq<Cmd>, b: Seq<Cmd>)
    requires
        p <= k < q,
        divides(ts, k),
        holds(ts, p, k, a),
        holds(ts, k + 1, q, b),
    ensures
        holds(ts, p, q, a + b),
{
    lemma_between_add(ts, p, k, q);
    lemma_between_add(ts, k, k + 1, q);
    lemma_in_add(a, b);
    assert(words_between(ts, k + 1, k + 1) =~= Seq::empty());
    assert(redirects_between(ts, k + 1, k + 1) =~= Seq::empty());
    assert(words_between(ts, k, k + 1) =~= Seq::empty());
    assert(redirects_between(ts, k, k + 1) =~= Seq::empty());
    assert(dividers_between(ts, k + 1, k + 1) == 0);
    assert(dividers_between(ts, k, k + 1) == 1);
    assert(words_in(a + b) =~= words_between(ts, p, q));
    assert(redirects_in(a + b) =~= redirects_between(ts, p, q));
}

proof fn lemma_pipeline_rest_holds(ts: Seq<Tok>, s: int, p: int, cmds: Seq<Cmd>)
    requires
        s <= p,
        cmds.len() > 0,
        holds(ts, s, p, cmds),
    ensures
        pipeline_rest(ts, p, cmds) matches Ok((t, q)) ==> p <= q && holds(ts, s, q, commands_of(t)),
    decreases ts.len() - p,
{
    if tok_at(ts, p) is Pipe {
        lemma_fresh_command(ts, p + 1);
        lemma_command_end(ts, p + 1, no_items());
        if let Ok((c, q)) = command_at(ts, p + 1, no_items()) {
            lemma_holds_both(ts, s, p, q, cmds, seq![c]);
            assert(cmds + seq![c] =~= cmds.push(c));
            lemma_pipeline_rest_holds(ts, s, q, cmds.push(c));
        }
    } else {
        if cmds.len() == 1 {
            assert(seq![cmds[0]] =~= cmds);
        }
    }
}

proof fn lemma_pipeline_holds(ts: Seq<Tok>, p: int)
    requires
        redirect_sign(tok_at(ts, p - 1)) is None,
    ensures
        pipeline_at(ts, p) matches Ok((t, q)) ==> p < q && holds(ts, p, q, commands_of(t)),
{
    lemma_fresh_command(ts, p);
    if let Ok((c, q)) = command_at(ts, p, no_items()) {
        lemma_pipeline_rest_holds(ts, p, q, seq![c]);
    }
}

proof fn lemma_and_or_rest_holds(ts: Seq<Tok>, s: int, p: int, left: Tree)
    requires
        s <= p,
        holds(ts, s, p, commands_of(left)),
    ensures
        and_or_rest(ts, p, left) matches Ok((t, q)) ==> p <= q && holds(ts, s, q, commands_of(t)),
    decreases ts.len() - p,
{
    if tok_at(ts, p) is And || tok_at(ts, p) is Or {
        lemma_pipeline_holds(ts, p + 1);
        lemma_pipeline_end(ts, p + 1);
        if let Ok((right, q)) = pipeline_at(ts, p + 1) {
            lemma_holds_both(ts, s, p, q, commands_of(left), commands_of(right));
            let both = if tok_at(ts, p) is And {
                Tree::And(Box::new(left), Box::new(right))
            } else {
                Tree::Or(Box::new(left), Box::new(right))
            };
            assert(commands_of(both) == commands_of(left) + commands_of(right));
            lemma_and_or_rest_holds(ts, s, q, both);
        }
    }
}

proof fn lemma_and_or_holds(ts: Seq<Tok>, p: int)
    requires
        redirect_sign(tok_at(ts, p - 1)) is None,
    ensures
        and_or_at(ts, p) matches Ok((t, q)) ==> p < q && holds(ts, p, q, commands_of(t)),
{
    lemma_pipeline_holds(ts, p);
    if let Ok((left, q)) = pipeline_at(ts, p) {
        lemma_and_or_rest_holds(ts, p, q, left);
    }
}

proof fn lemma_sequence_rest_holds(ts: Seq<Tok>, s: int, p: int, left: Tree)
    requires
        s <= p,
        holds(ts, s, p, commands_of(left)),
    ensures
        sequence_rest(ts, p, left) matches Ok((t, q)) ==> p <= q && holds(ts, s, q, commands_of(t)),
    decreases ts.len() - p,
{
    if tok_at(ts, p) is Semicolon {
        if tok_at(ts, p + 1) is Eof {
            lemma_between_add(ts, s, p, p + 1);
            assert(words_between(ts, p + 1, p + 1) =~= Seq::empty());
            assert(words_between(ts, p, p + 1) =~= Seq::empty());
            assert(redirects_between(ts, p + 1, p + 1) =~= Seq::empty());
            assert(redirects_between(ts, p, p + 1) =~= Seq::empty());
            assert(dividers_between(ts, p + 1, p + 1) == 0);
            assert(dividers_between(ts, p, p + 1) == 0);
            assert(words_between(ts, s, p + 1) =~= words_between(ts, s, p));
            assert(redirects_between(ts, s, p + 1) =~= redirects_between(ts, s, p));
        } else {
            lemma_and_or_holds(ts, p + 1);
            lemma_and_or_end(ts, p + 1);
            if let Ok((right, q)) = and_or_at(ts, p + 1) {
                lemma_holds_both(ts, s, p, q, commands_of(left), commands_of(right));
                let both = Tree::Sequence(Box::new(left), Box::new(right));
                assert(commands_of(both) == commands_of(left) + commands_of(right));
                lemma_sequence_rest_holds(ts, s, q, both);
            }
        }
    }
}

/// A tree that is parsed keeps everything that was written. The words of its
/// commands, in order, are the words of the input that are not targets of
/// redirections; their redirections, in order, are those of the input; and there
/// is one command more than there are operators between commands.
pub proof fn law_parse_loses_nothing(s: Seq<char>, tree: Tree)
    requires
        parsed(s) == Ok::<Option<Tree>, Seq<char>>(Some(tree)),
    ensures
        ({
            let ts = lexed(s);
            let n = ts.len() as int;
            let cmds = commands_of(tree);
            &&& words_in(cmds) == words_between(ts, 0, n)
            &&& redirects_in(cmds) == redirects_between(ts, 0, n)
            &&& cmds.len() == 1 + dividers_between(ts, 0, n)
        }),
{
    let ts = lexed(s);
    let n = ts.len() as int;
    law_one_eof_at_the_end(s);
    law_parse_leaves_nothing_over(ts, 0);
    lemma_and_or_holds(ts, 0);
    let (left, q) = and_or_at(ts, 0)->Ok_0;
    lemma_sequence_rest_holds(ts, 0, q, left);
    lemma_and_or_end(ts, 0);
    let (t, e) = sequence_at(ts, 0)->Ok_0;
    assert(tok_at(ts, e) is Eof);
    assert(e == n - 1 || e == n) by {
        if e < n - 1 {
            assert(ts[e] is Eof);
        }
    }
    lemma_between_add(ts, 0, e, n);
    assert(words_between(ts, n, n) =~= Seq::empty());
    assert(words_between(ts, e, n) =~= Seq::empty());
    assert(redirects_between(ts, n, n) =~= Seq::empty());
    assert(redirects_between(ts, e, n) =~= Seq::empty());
    assert(dividers_between(ts, n, n) == 0);
    assert(dividers_between(ts, e, n) == 0);
    assert(words_between(ts, 0, n) =~= words_between(ts, 0, e));
    assert(redirects_between(ts, 0, n) =~= redirects_between(ts, 0, e));
}

// ---------------------------------------------------------------------
// Statements one behind the other
// ---------------------------------------------------------------------

/// Whether `longer` is `ts` with a `;` and more in place of the end of input.
spec fn continues(ts: Seq<Tok>, longer: Seq<Tok>) -> bool {
    &&& ts.len() > 0
    &&& ts.last() is Eof
    &&& longer.len() >= ts.len()
    &&& forall|k: int| 0 <= k < ts.len() - 1 ==> ts[k] == longer[k] && !(#[trigger] ts[k] is Eof)
    &&& longer[ts.len() - 1] is Semicolon
}

proof fn lemma_command_continues(ts: Seq<Tok>, longer: Seq<Tok>, p: int, done: Cmd)
    requires
        continues(ts, longer),
        0 <= p < ts.len(),
    ensures
        command_at(ts, p, done) matches Ok((c, q)) ==> q < ts.len() && command_at(longer, p, done)
            == Ok::<(Cmd, int), Seq<char>>((c, q)),
    decreases ts.len() - p,
{
    let n = ts.len() - 1;
    if p < n {
        assert(tok_at(longer, p) == ts[p]);
        match ts[p] {
            Tok::Word(w) => {
                lemma_command_continues(
                    ts,
                    longer,
                    p + 1,
                    Cmd { words: done.words.push(w), ..done },
                );
            },
            op => {
                if redirect_sign(op) is Some {
                    if let Tok::Word(target) = tok_at(ts, p + 1) {
                        assert(p + 1 < n);
                        assert(tok_at(longer, p + 1) == ts[p + 1]);
                        lemma_command_continues(
                            ts,
                            longer,
                            p + 2,
                            Cmd { redirects: done.redirects.push(redirect_to(op, target)), ..done },
                        );
                    }
                }
            },
        }
    }
}

proof fn lemma_pipeline_rest_continues(ts: Seq<Tok>, longer: Seq<Tok>, p: int, cmds: Seq<Cmd>)
    requires
        continues(ts, longer),
        0 <= p < ts.len(),
    ensures
        pipeline_rest(ts, p, cmds) matches Ok((t, q)) ==> q < ts.len() && pipeline_rest(
            longer,
            p,
            cmds,
        ) == Ok::<(Tree, int), Seq<char>>((t, q)),
    decreases ts.len() - p,
{
    if p < ts.len() - 1 {
        assert(tok_at(longer, p) == ts[p]);
        if ts[p] is Pipe {
            lemma_command_continues(ts, longer, p + 1, no_items());
            lemma_command_end(ts, p + 1, no_items());
            if let Ok((c, q)) = command_at(ts, p + 1, no_items()) {
                lemma_pipeline_rest_continues(ts, longer, q, cmds.push(c));
            }
        }
    }
}

proof fn lemma_pipeline_continues(ts: Seq<Tok>, longer: Seq<Tok>, p: int)
    requires
        continues(ts, longer),
        0 <= p < ts.len(),
    ensures
        pipeline_at(ts, p) matches Ok((t, q)) ==> q < ts.len() && pipeline_at(longer, p) == Ok::<
            (Tree, int),
            Seq<char>,
        >((t, q)),
{
    lemma_command_continues(ts, longer, p, no_items());
    lemma_command_end(ts, p, no_items());
    if let Ok((c, q)) = command_at(ts, p, no_items()) {
        lemma_pipeline_rest_continues(ts, longer, q, seq![c]);
    }
}

proof fn lemma_and_or_rest_continues(ts: Seq<Tok>, longer: Seq<Tok>, p: int, left: Tree)
    requires
        continues(ts, longer),
        0 <= p < ts.len(),
    ensures
        and_or_rest(ts, p, left) matches Ok((t, q)) ==> q < ts.len() && and_or_rest(
            longer,
            p,
            left,
        ) == Ok::<(Tree, int), Seq<char>>((t, q)),
    decreases ts.len() - p,
{
    if p < ts.len() - 1 {
        assert(tok_at(longer, p) == ts[p]);
        if ts[p] is And || ts[p] is Or {
            lemma_pipeline_continues(ts, longer, p + 1);
            lemma_pipeline_end(ts, p + 1);
            if let Ok((right, q)) = pipeline_at(ts, p + 1) {
                lemma_and_or_rest_continues(
                    ts,
                    longer,
                    q,
                    if ts[p] is And {
                        Tree::And(Box::new(left), Box::new(right))
                    } else {
                        Tree::Or(Box::new(left), Box::new(right))
                    },
                );
            }
        }
    }
}

proof fn lemma_and_or_continues(ts: Seq<Tok>, longer: Seq<Tok>, p: int)
    requires
        continues(ts, longer),
        0 <= p < ts.len(),
    ensures
        and_or_at(ts, p) matches Ok((t, q)) ==> q < ts.len() && and_or_at(longer, p) == Ok::<
            (Tree, int),
            Seq<char>,
        >((t, q)),
{
    lemma_pipeline_continues(ts, longer, p);
    lemma_pipeline_end(ts, p);
    if let Ok((left, q)) = pipeline_at(ts, p) {
        lemma_and_or_rest_continues(ts, longer, q, left);
    }
}

/// A sequence that does not end in a `;` goes on where it would have ended.
proof fn lemma_sequence_continues(ts: Seq<Tok>, longer: Seq<Tok>, p: int, left: Tree)
    requires
        continues(ts, longer),
        0 <= p < ts.len(),
        !(tok_at(ts, ts.len() - 2) is Semicolon),
        tok_at(ts, p) is Semicolon || tok_at(ts, p) is Eof,
    ensures
        sequence_rest(ts, p, left) matches Ok((t, _)) ==> sequence_rest(longer, p, left)
            == sequence_rest(longer, ts.len() - 1, t),
    decreases ts.len() - p,
{
    let n = ts.len() - 1;
    if p < n {
        assert(tok_at(longer, p) == ts[p]);
        assert(p + 1 < n);
        assert(tok_at(longer, p + 1) == ts[p + 1]);
        assert(!(ts[p + 1] is Eof));
        lemma_and_or_continues(ts, longer, p + 1);
        lemma_and_or_end(ts, p + 1);
        if let Ok((right, q)) = and_or_at(ts, p + 1) {
            lemma_sequence_continues(
                ts,
                longer,
                q,
                Tree::Sequence(Box::new(left), Box::new(right)),
            );
        }
    }
}

/// The result of a parse, `d` tokens further on.
spec fn moved_on<T>(r: Result<(T, int), Seq<char>>, d: int) -> Result<(T, int), Seq<char>> {
    match r {
        Ok((t, q)) => Ok((t, q + d)),
        Err(e) => Err(e),
    }
}

proof fn lemma_command_moved(x: Seq<Tok>, ts: Seq<Tok>, p: int, done: Cmd)
    requires
        0 <= p,
    ensures
        command_at(x + ts, x.len() + p, done) == moved_on(
            command_at(ts, p, done),
            x.len() as int,
        ),
    decreases ts.len() - p,
{
    let d = x.len() as int;
    assert(tok_at(x + ts, d + p) == tok_at(ts, p));
    assert(tok_at(x + ts, d + p + 1) == tok_at(ts, p + 1));
    match tok_at(ts, p) {
        Tok::Word(w) => {
            lemma_command_moved(x, ts, p + 1, Cmd { words: done.words.push(w), ..done });
        },
        op => {
            if redirect_sign(op) is Some {
                if let Tok::Word(target) = tok_at(ts, p + 1) {
                    lemma_command_moved(
                        x,
                        ts,
                        p + 2,
                        Cmd { redirects: done.redirects.push(redirect_to(op, target)), ..done },
                    );
                }
            }
        },
    }
}

proof fn lemma_pipeline_rest_moved(x: Seq<Tok>, ts: Seq<Tok>, p: int, cmds: Seq<Cmd>)
    requires
        0 <= p,
    ensures
        pipeline_rest(x + ts, x.len() + p, cmds) == moved_on(
            pipeline_rest(ts, p, cmds),
            x.len() as int,
        ),
    decreases ts.len() - p,
{
    let d = x.len() as int;
    assert(tok_at(x + ts, d + p) == tok_at(ts, p));
    if tok_at(ts, p) is Pipe {
        lemma_command_moved(x, ts, p + 1, no_items());
        lemma_command_end(ts, p + 1, no_items());
        if let Ok((c, q)) = command_at(ts, p + 1, no_items()) {
            lemma_pipeline_rest_moved(x, ts, q, cmds.push(c));
        }
    }
}

proof fn lemma_pipeline_moved(x: Seq<Tok>, ts: Seq<Tok>, p: int)
    requires
        0 <= p,
    ensures
        pipeline_at(x + ts, x.len() + p) == moved_on(pipeline_at(ts, p), x.len() as int),
{
    lemma_command_moved(x, ts, p, no_items());
    lemma_command_end(ts, p, no_items());
    if let Ok((c, q)) = command_at(ts, p, no_items()) {
        lemma_pipeline_rest_moved(x, ts, q, seq![c]);
    }
}

proof fn lemma_and_or_rest_moved(x: Seq<Tok>, ts: Seq<Tok>, p: int, left: Tree)
    requires
        0 <= p,
    ensures
        and_or_rest(x + ts, x.len() + p, left) == moved_on(
            and_or_rest(ts, p, left),
            x.len() as int,
        ),
    decreases ts.len() - p,
{
    let d = x.len() as int;
    assert(tok_at(x + ts, d + p) == tok_at(ts, p));
    if tok_at(ts, p) is And || tok_at(ts, p) is Or {
        lemma_pipeline_moved(x, ts, p + 1);
        lemma_pipeline_end(ts, p + 1);
        if let Ok((right, q)) = pipeline_at(ts, p + 1) {
            lemma_and_or_rest_moved(
                x,
                ts,
                q,
                if tok_at(ts, p) is And {
                    Tree::And(Box::new(left), Box::new(right))
                } else {
                    Tree::Or(Box::new(left), Box::new(right))
                },
            );
        }
    }
}

proof fn lemma_and_or_moved(x: Seq<Tok>, ts: Seq<Tok>, p: int)
    requires
        0 <= p,
    ensures
        and_or_at(x + ts, x.len() + p) == moved_on(and_or_at(ts, p), x.len() as int),
{
    lemma_pipeline_moved(x, ts, p);
    lemma_pipeline_end(ts, p);
    if let Ok((left, q)) = pipeline_at(ts, p) {
        lemma_and_or_rest_moved(x, ts, q, left);
    }
}

/// A sequence that goes on from a sequence is one.
proof fn lemma_sequence_stays(ts: Seq<Tok>, p: int, left: Tree)
    requires
        left is Sequence,
    ensures
        sequence_rest(ts, p, left) matches Ok((t, _)) ==> t is Sequence,
    decreases ts.len() - p,
{
    if tok_at(ts, p) is Semicolon && !(tok_at(ts, p + 1) is Eof) {
        lemma_and_or_end(ts, p + 1);
        if let Ok((right, q)) = and_or_at(ts, p + 1) {
            lemma_sequence_stays(ts, q, Tree::Sequence(Box::new(left), Box::new(right)));
        }
    }
}

/// The first of two statements, up to the `;` behind it.
proof fn lemma_first_statement(ts: Seq<Tok>, longer: Seq<Tok>, x: Tree)
    requires
        continues(ts, longer),
        !(tok_at(ts, ts.len() - 2) is Semicolon),
        tree_of_tokens(ts) == Ok::<Option<Tree>, Seq<char>>(Some(x)),
    ensures
        !(tok_at(longer, 0) is Eof),
        sequence_at(longer, 0) == sequence_rest(longer, ts.len() - 1, x),
{
    if ts.len() == 1 {
        assert(tok_at(ts, 0) is Eof);
    }
    assert(tok_at(longer, 0) == ts[0]);
    lemma_and_or_continues(ts, longer, 0);
    lemma_and_or_end(ts, 0);
    let (left, q) = and_or_at(ts, 0)->Ok_0;
    lemma_sequence_continues(ts, longer, q, left);
}

/// The tree of tokens that are no sequence is that of their first chain.
proof fn lemma_lone_chain(ts: Seq<Tok>, y: Tree)
    requires
        tree_of_tokens(ts) == Ok::<Option<Tree>, Seq<char>>(Some(y)),
        !(y is Sequence),
    ensures
        and_or_at(ts, 0) is Ok,
        (and_or_at(ts, 0)->Ok_0).0 == y,
        ({
            let e = (and_or_at(ts, 0)->Ok_0).1;
            !(tok_at(ts, e) is Semicolon) || tok_at(ts, e + 1) is Eof
        }),
{
    lemma_and_or_end(ts, 0);
    let (right, e) = and_or_at(ts, 0)->Ok_0;
    if tok_at(ts, e) is Semicolon && !(tok_at(ts, e + 1) is Eof) {
        lemma_and_or_end(ts, e + 1);
        let (third, f) = and_or_at(ts, e + 1)->Ok_0;
        lemma_sequence_stays(ts, f, Tree::Sequence(Box::new(right), Box::new(third)));
    }
}

/// The second of two statements, behind the first and its `;`.
proof fn lemma_second_statement(front: Seq<Tok>, ts: Seq<Tok>, x: Tree, y: Tree)
    requires
        front.len() > 0,
        front.last() is Semicolon,
        tree_of_tokens(ts) == Ok::<Option<Tree>, Seq<char>>(Some(y)),
        !(y is Sequence),
    ensures
        ({
            let r = sequence_rest(front + ts, front.len() - 1, x);
            r is Ok && (r->Ok_0).0 == Tree::Sequence(Box::new(x), Box::new(y))
        }),
{
    let all = front + ts;
    let n = front.len() - 1;
    lemma_lone_chain(ts, y);
    lemma_and_or_moved(front, ts, 0);
    lemma_and_or_end(ts, 0);
    let e = (and_or_at(ts, 0)->Ok_0).1;
    let both = Tree::Sequence(Box::new(x), Box::new(y));
    assert(tok_at(all, n) == front.last());
    assert(tok_at(all, n + 1) == tok_at(ts, 0));
    assert(and_or_at(all, n + 1) == Ok::<(Tree, int), Seq<char>>((y, n + 1 + e)));
    assert(tok_at(all, n + 1 + e) == tok_at(ts, e));
    assert(tok_at(all, n + 2 + e) == tok_at(ts, e + 1));
    assert(sequence_rest(all, n, x) == sequence_rest(all, n + 1 + e, both));
}

/// Two inputs with a `;` between them parse to the sequence of what each parses
/// to. This needs a first input that closes its quotes and does not end in `;`,
/// and a second that is no sequence itself.
pub proof fn law_statements_parse_apart(a: Seq<char>, x: Tree, b: Seq<char>, y: Tree)
    requires
        quotes_closed(a, 0),
        parsed(a) == Ok::<Option<Tree>, Seq<char>>(Some(x)),
        !(lexed(a)[lexed(a).len() - 2] is Semicolon),
        parsed(b) == Ok::<Option<Tree>, Seq<char>>(Some(y)),
        !(y is Sequence),
    ensures
        parsed(a + seq![';'] + b) == Ok::<Option<Tree>, Seq<char>>(
            Some(Tree::Sequence(Box::new(x), Box::new(y))),
        ),
{
    let ta = lexed(a);
    let tb = lexed(b);
    let n = ta.len() - 1;
    let front = ta.drop_last().push(Tok::Semicolon);
    let all = lexed(a + seq![';'] + b);
    law_statements_lex_apart(a, ';', b);
    law_one_eof_at_the_end(a);
    assert(all == front + tb);
    if n == 0 {
        assert(tok_at(ta, 0) is Eof);
    }
    assert(continues(ta, all)) by {
        assert forall|k: int| 0 <= k < n implies ta[k] == all[k] && !(#[trigger] ta[k] is Eof) by {
            assert(all[k] == front[k]);
        }
        assert(all[n] == front[n]);
    }
    assert(tok_at(ta, n - 1) == ta[n - 1]);
    lemma_first_statement(ta, all, x);
    lemma_second_statement(front, tb, x, y);
}

// ---------------------------------------------------------------------
// Everything stays in its place
// ---------------------------------------------------------------------

/// The tokens from `p` up to `q` that stand between two commands.
pub open spec fn signs_between(ts: Seq<Tok>, p: int, q: int) -> Seq<Tok>
    decreases q - p,
{
    if p >= q {
        Seq::empty()
    } else if divides(ts, p) {
        seq![tok_at(ts, p)] + signs_between(ts, p + 1, q)
    } else {
        signs_between(ts, p + 1, q)
    }
}

/// The tokens from `p` up to `q`, cut into commands at the operators between them.
pub open spec fn cut_between(ts: Seq<Tok>, p: int, q: int) -> Seq<Cmd>
    decreases q - p,
{
    if p >= q {
        seq![Cmd { words: Seq::empty(), redirects: Seq::empty() }]
    } else {
        let rest = cut_between(ts, p + 1, q);
        let first = rest[0];
        if divides(ts, p) {
            seq![Cmd { words: Seq::empty(), redirects: Seq::empty() }] + rest
        } else if tok_at(ts, p) is Word && redirect_sign(tok_at(ts, p - 1)) is None {
            rest.update(
                0,
                Cmd { words: seq![tok_at(ts, p)->Word_0] + first.words, redirects: first.redirects },
            )
        } else if redirect_sign(tok_at(ts, p)) is Some {
            rest.update(
                0,
                Cmd {
                    words: first.words,
                    redirects: seq![redirect_to(tok_at(ts, p), tok_at(ts, p + 1)->Word_0)]
                        + first.redirects,
                },
            )
        } else {
            rest
        }
    }
}

/// The operators of a tree, from left to right.
pub open spec fn signs_of(tree: Tree) -> Seq<Tok>
    decreases tree,
{
    match tree {
        Tree::Command(_) => Seq::empty(),
        Tree::Pipeline(cmds) => Seq::new((cmds.len() - 1) as nat, |k: int| Tok::Pipe),
        Tree::And(l, r) => signs_of(*l) + seq![Tok::And] + signs_of(*r),
        Tree::Or(l, r) => signs_of(*l) + seq![Tok::Or] + signs_of(*r),
        Tree::Sequence(l, r) => signs_of(*l) + seq![Tok::Semicolon] + signs_of(*r),
    }
}

/// Whether commands and operators are those that the tokens from `p` up to `q`
/// write.
spec fn in_order(ts: Seq<Tok>, p: int, q: int, cmds: Seq<Cmd>, signs: Seq<Tok>) -> bool {
    cmds == cut_between(ts, p, q) && signs == signs_between(ts, p, q)
}

proof fn lemma_cut_some(ts: Seq<Tok>, p: int, q: int)
    ensures
        cut_between(ts, p, q).len() > 0,
    decreases q - p,
{
    if p < q {
        lemma_cut_some(ts, p + 1, q);
    }
}

/// Without an operator between commands there is one command.
proof fn lemma_cut_one(ts: Seq<Tok>, p: int, q: int)
    requires
        dividers_between(ts, p, q) == 0,
    ensures
        cut_between(ts, p, q) == seq![
            Cmd { words: words_between(ts, p, q), redirects: redirects_between(ts, p, q) },
        ],
        signs_between(ts, p, q) == Seq::<Tok>::empty(),
    decreases q - p,
{
    if p < q {
        lemma_cut_one(ts, p + 1, q);
        let rest = cut_between(ts, p + 1, q);
        assert(cut_between(ts, p, q) =~= seq![
            Cmd { words: words_between(ts, p, q), redirects: redirects_between(ts, p, q) },
        ]);
    }
}

/// An operator between commands cuts the tokens in two.
proof fn lemma_cut_both(ts: Seq<Tok>, p: int, k: int, q: int)
    requires
        p <= k < q,
        divides(ts, k),
    ensures
        cut_between(ts, p, q) == cut_between(ts, p, k) + cut_between(ts, k + 1, q),
        signs_between(ts, p, q) == signs_between(ts, p, k) + seq![tok_at(ts, k)] + signs_between(
            ts,
            k + 1,
            q,
        ),
    decreases k - p,
{
    lemma_cut_some(ts, p, k);
    lemma_cut_some(ts, p + 1, k);
    lemma_cut_some(ts, k + 1, q);
    if p < k {
        lemma_cut_both(ts, p + 1, k, q);
        let a = cut_between(ts, p + 1, k);
        let b = cut_between(ts, k + 1, q);
        let rest = cut_between(ts, p + 1, q);
        assert(rest == a + b);
        assert(rest[0] == a[0]);
        assert(cut_between(ts, p, q) =~= cut_between(ts, p, k) + b);
        assert(signs_between(ts, p, q) =~= signs_between(ts, p, k) + seq![tok_at(ts, k)]
            + signs_between(ts, k + 1, q));
    } else {
        assert(cut_between(ts, p, q) =~= cut_between(ts, p, k) + cut_between(ts, k + 1, q));
        assert(signs_between(ts, p, q) =~= signs_between(ts, p, k) + seq![tok_at(ts, k)]
            + signs_between(ts, k + 1, q));
    }
}

proof fn lemma_fresh_in_order(ts: Seq<Tok>, p: int)
    requires
        redirect_sign(tok_at(ts, p - 1)) is None,
    ensures
        command_at(ts, p, no_items()) matches Ok((c, q)) ==> p < q && in_order(
            ts,
            p,
            q,
            seq![c],
            Seq::empty(),
        ),
{
    lemma_command_holds(ts, p, no_items());
    lemma_command_end(ts, p, no_items());
    if let Ok((c, q)) = command_at(ts, p, no_items()) {
        lemma_cut_one(ts, p, q);
        assert(no_items().words + words_between(ts, p, q) =~= words_between(ts, p, q));
        assert(no_items().redirects + redirects_between(ts, p, q) =~= redirects_between(ts, p, q));
        assert(seq![c] =~= cut_between(ts, p, q));
    }
}

/// That many pipes.
spec fn pipes(n: int) -> Seq<Tok> {
    Seq::new(n as nat, |k: int| Tok::Pipe)
}

proof fn lemma_pipeline_rest_in_order(ts: Seq<Tok>, s: int, p: int, cmds: Seq<Cmd>)
    requires
        s <= p,
        cmds.len() > 0,
        in_order(ts, s, p, cmds, pipes(cmds.len() - 1)),
    ensures
        pipeline_rest(ts, p, cmds) matches Ok((t, q)) ==> p <= q && in_order(
            ts,
            s,
            q,
            commands_of(t),
            signs_of(t),
        ),
    decreases ts.len() - p,
{
    if tok_at(ts, p) is Pipe {
        lemma_fresh_in_order(ts, p + 1);
        lemma_command_end(ts, p + 1, no_items());
        if let Ok((c, q)) = command_at(ts, p + 1, no_items()) {
            lemma_cut_both(ts, s, p, q);
            assert(cmds + seq![c] =~= cmds.push(c));
            assert(pipes(cmds.len() - 1) + seq![Tok::Pipe] + Seq::<Tok>::empty() =~= pipes(
                cmds.push(c).len() - 1,
            ));
            lemma_pipeline_rest_in_order(ts, s, q, cmds.push(c));
        }
    } else if cmds.len() == 1 {
        assert(seq![cmds[0]] =~= cmds);
        assert(pipes(0) =~= Seq::empty());
    }
}

proof fn lemma_pipeline_in_order(ts: Seq<Tok>, p: int)
    requires
        redirect_sign(tok_at(ts, p - 1)) is None,
    ensures
        pipeline_at(ts, p) matches Ok((t, q)) ==> p < q && in_order(
            ts,
            p,
            q,
            commands_of(t),
            signs_of(t),
        ),
{
    lemma_fresh_in_order(ts, p);
    if let Ok((c, q)) = command_at(ts, p, no_items()) {
        assert(pipes(0) =~= Seq::empty());
        lemma_pipeline_rest_in_order(ts, p, q, seq![c]);
    }
}

proof fn lemma_and_or_rest_in_order(ts: Seq<Tok>, s: int, p: int, left: Tree)
    requires
        s <= p,
        in_order(ts, s, p, commands_of(left), signs_of(left)),
    ensures
        and_or_rest(ts, p, left) matches Ok((t, q)) ==> p <= q && in_order(
            ts,
            s,
            q,
            commands_of(t),
            signs_of(t),
        ),
    decreases ts.len() - p,
{
    if tok_at(ts, p) is And || tok_at(ts, p) is Or {
        lemma_pipeline_in_order(ts, p + 1);
        lemma_pipeline_end(ts, p + 1);
        if let Ok((right, q)) = pipeline_at(ts, p + 1) {
            lemma_cut_both(ts, s, p, q);
            let both = if tok_at(ts, p) is And {
                Tree::And(Box::new(left), Box::new(right))
            } else {
                Tree::Or(Box::new(left), Box::new(right))
            };
            assert(commands_of(both) == commands_of(left) + commands_of(right));
            assert(signs_of(both) == signs_of(left) + seq![tok_at(ts, p)] + signs_of(right));
            lemma_and_or_rest_in_order(ts, s, q, both);
        }
    }
}

proof fn lemma_and_or_in_order(ts: Seq<Tok>, p: int)
    requires
        redirect_sign(tok_at(ts, p - 1)) is None,
    ensures
        and_or_at(ts, p) matches Ok((t, q)) ==> p < q && in_order(
            ts,
            p,
            q,
            commands_of(t),
            signs_of(t),
        ),
{
    lemma_pipeline_in_order(ts, p);
    if let Ok((left, q)) = pipeline_at(ts, p) {
        lemma_and_or_rest_in_order(ts, p, q, left);
    }
}

/// Tokens behind the last command that write nothing change nothing.
proof fn lemma_cut_end(ts: Seq<Tok>, p: int, q: int)
    requires
        p <= q,
        !divides(ts, q),
        !(tok_at(ts, q) is Word),
        redirect_sign(tok_at(ts, q)) is None,
    ensures
        cut_between(ts, p, q + 1) == cut_between(ts, p, q),
        signs_between(ts, p, q + 1) == signs_between(ts, p, q),
    decreases q - p,
{
    if p < q {
        lemma_cut_end(ts, p + 1, q);
    } else {
        assert(cut_between(ts, q + 1, q + 1) == cut_between(ts, q, q));
        assert(signs_between(ts, q + 1, q + 1) == signs_between(ts, q, q));
    }
}

proof fn lemma_sequence_rest_in_order(ts: Seq<Tok>, s: int, p: int, left: Tree)
    requires
        s <= p,
        in_order(ts, s, p, commands_of(left), signs_of(left)),
    ensures
        sequence_rest(ts, p, left) matches Ok((t, q)) ==> p <= q && in_order(
            ts,
            s,
            q,
            commands_of(t),
            signs_of(t),
        ),
    decreases ts.len() - p,
{
    if tok_at(ts, p) is Semicolon {
        if tok_at(ts, p + 1) is Eof {
            lemma_cut_end(ts, s, p);
        } else {
            lemma_and_or_in_order(ts, p + 1);
            lemma_and_or_end(ts, p + 1);
            if let Ok((right, q)) = and_or_at(ts, p + 1) {
                lemma_cut_both(ts, s, p, q);
                let both = Tree::Sequence(Box::new(left), Box::new(right));
                assert(commands_of(both) == commands_of(left) + commands_of(right));
                assert(signs_of(both) == signs_of(left) + seq![Tok::Semicolon] + signs_of(right));
                lemma_sequence_rest_in_order(ts, s, q, both);
            }
        }
    }
}

/// A tree that is parsed keeps everything in its place. Its commands, from left to
/// right, are what the operators of the input cut it into, each with its own words
/// and redirections, and its operators, from left to right, are those of the input.
pub proof fn law_parse_keeps_places(s: Seq<char>, tree: Tree)
    requires
        parsed(s) == Ok::<Option<Tree>, Seq<char>>(Some(tree)),
    ensures
        commands_of(tree) == cut_between(lexed(s), 0, lexed(s).len() as int),
        signs_of(tree) == signs_between(lexed(s), 0, lexed(s).len() as int),
{
    let ts = lexed(s);
    let n = ts.len() as int;
    law_one_eof_at_the_end(s);
    law_parse_leaves_nothing_over(ts, 0);
    lemma_and_or_in_order(ts, 0);
    let (left, q) = and_or_at(ts, 0)->Ok_0;
    lemma_sequence_rest_in_order(ts, 0, q, left);
    lemma_and_or_end(ts, 0);
    let (t, e) = sequence_at(ts, 0)->Ok_0;
    assert(tok_at(ts, e) is Eof);
    assert(e == n - 1 || e == n) by {
        if e < n - 1 {
            assert(ts[e] is Eof);
        }
    }
    if e == n - 1 {
        lemma_cut_end(ts, 0, e);
    }
}

/// Each operator of redirection makes the redirection that it stands for; only
/// `2>` and `2>>` in front of `&1` send the errors where the output goes.
pub proof fn law_redirections_are_what_they_say(target: Seq<Part>)
    ensures
        redirect_to(Tok::RedirectIn, target) == Redir::In(target),
        redirect_to(Tok::RedirectOut, target) == Redir::Out(target),
        redirect_to(Tok::RedirectAppend, target) == Redir::Append(target),
        redirect_to(Tok::RedirectBoth, target) == Redir::Both(target),
        text_of(target) != "&1"@ ==> redirect_to(Tok::RedirectErrOut, target) == Redir::ErrOut(
            target,
        ),
        text_of(target) != "&1"@ ==> redirect_to(Tok::RedirectErrAppend, target)
            == Redir::ErrAppend(target),
        text_of(target) == "&1"@ ==> redirect_to(Tok::RedirectErrOut, target)
            == Redir::ErrToStdout,
        text_of(target) == "&1"@ ==> redirect_to(Tok::RedirectErrAppend, target)
            == Redir::ErrToStdout,
        forall|t: Tok|
            redirect_sign(t) is Some <==> #[trigger] is_redirection(t),
{
}

/// Whether a token is an operator of redirection.
pub open spec fn is_redirection(t: Tok) -> bool {
    ||| t is RedirectIn
    ||| t is RedirectOut
    ||| t is RedirectAppend
    ||| t is RedirectErrOut
    ||| t is RedirectErrAppend
    ||| t is RedirectBoth
}

/// An input without words and operators parses to nothing, and only such an input
/// does.
pub proof fn law_only_nothing_parses_to_nothing(s: Seq<char>)
    ensures
        parsed(s) == Ok::<Option<Tree>, Seq<char>>(None) <==> lexed(s) == seq![Tok::Eof],
{
    let ts = lexed(s);
    law_one_eof_at_the_end(s);
    if tok_at(ts, 0) is Eof {
        assert(ts.len() == 1);
        assert(ts =~= seq![Tok::Eof]);
    }
}

// ---------------------------------------------------------------------
// What is wrong with an input
// ---------------------------------------------------------------------

/// How an operator of redirection is written.
pub open spec fn sign_written(t: Tok) -> Seq<char> {
    match t {
        Tok::RedirectIn => seq!['<'],
        Tok::RedirectOut => seq!['>'],
        Tok::RedirectAppend => seq!['>', '>'],
        Tok::RedirectErrOut => seq!['2', '>'],
        Tok::RedirectErrAppend => seq!['2', '>', '>'],
        _ => seq!['&', '>'],
    }
}

/// Whether `e` is the complaint about the operator of redirection at `k`, which no
/// word follows.
pub open spec fn misses_filename(ts: Seq<Tok>, k: int, e: Seq<char>) -> bool {
    &&& is_redirection(tok_at(ts, k))
    &&& !(tok_at(ts, k + 1) is Word)
    &&& e == "syntax error: expected a filename after '"@ + sign_written(tok_at(ts, k))
        + "', found "@ + token_name(tok_at(ts, k + 1))
}

/// Whether `e` is a complaint about one of the tokens.
spec fn complains(ts: Seq<Tok>, e: Seq<char>) -> bool {
    ||| e == "syntax error: expected a command"@
    ||| exists|k: int| #[trigger] misses_filename(ts, k, e)
}

proof fn lemma_sign_is_written(t: Tok)
    requires
        redirect_sign(t) is Some,
    ensures
        is_redirection(t),
        redirect_sign(t)->0 == sign_written(t),
{
    reveal_strlit("<");
    reveal_strlit(">");
    reveal_strlit(">>");
    reveal_strlit("2>");
    reveal_strlit("2>>");
    reveal_strlit("&>");
    assert(redirect_sign(t)->0 =~= sign_written(t));
}

proof fn lemma_command_complains(ts: Seq<Tok>, p: int, done: Cmd)
    ensures
        command_at(ts, p, done) matches Err(e) ==> complains(ts, e),
    decreases ts.len() - p,
{
    match tok_at(ts, p) {
        Tok::Word(w) => {
            lemma_command_complains(ts, p + 1, Cmd { words: done.words.push(w), ..done });
        },
        op => {
            if redirect_sign(op) is Some {
                lemma_sign_is_written(op);
                if let Tok::Word(target) = tok_at(ts, p + 1) {
                    lemma_command_complains(
                        ts,
                        p + 2,
                        Cmd { redirects: done.redirects.push(redirect_to(op, target)), ..done },
                    );
                } else {
                    let e = command_at(ts, p, done)->Err_0;
                    assert(misses_filename(ts, p, e));
                }
            }
        },
    }
}

proof fn lemma_pipeline_rest_complains(ts: Seq<Tok>, p: int, cmds: Seq<Cmd>)
    ensures
        pipeline_rest(ts, p, cmds) matches Err(e) ==> complains(ts, e),
    decreases ts.len() - p,
{
    if tok_at(ts, p) is Pipe {
        lemma_command_complains(ts, p + 1, no_items());
        lemma_command_end(ts, p + 1, no_items());
        if let Ok((c, q)) = command_at(ts, p + 1, no_items()) {
            lemma_pipeline_rest_complains(ts, q, cmds.push(c));
        }
    }
}

proof fn lemma_pipeline_complains(ts: Seq<Tok>, p: int)
    ensures
        pipeline_at(ts, p) matches Err(e) ==> complains(ts, e),
{
    lemma_command_complains(ts, p, no_items());
    if let Ok((c, q)) = command_at(ts, p, no_items()) {
        lemma_pipeline_rest_complains(ts, q, seq![c]);
    }
}

proof fn lemma_and_or_rest_complains(ts: Seq<Tok>, p: int, left: Tree)
    ensures
        and_or_rest(ts, p, left) matches Err(e) ==> complains(ts, e),
    decreases ts.len() - p,
{
    if tok_at(ts, p) is And || tok_at(ts, p) is Or {
        lemma_pipeline_complains(ts, p + 1);
        lemma_pipeline_end(ts, p + 1);
        if let Ok((right, q)) = pipeline_at(ts, p + 1) {
            lemma_and_or_rest_complains(
                ts,
                q,
                if tok_at(ts, p) is And {
                    Tree::And(Box::new(left), Box::new(right))
                } else {
                    Tree::Or(Box::new(left), Box::new(right))
                },
            );
        }
    }
}

proof fn lemma_and_or_complains(ts: Seq<Tok>, p: int)
    ensures
        and_or_at(ts, p) matches Err(e) ==> complains(ts, e),
{
    lemma_pipeline_complains(ts, p);
    if let Ok((left, q)) = pipeline_at(ts, p) {
        lemma_and_or_rest_complains(ts, q, left);
    }
}

proof fn lemma_sequence_rest_complains(ts: Seq<Tok>, p: int, left: Tree)
    ensures
        sequence_rest(ts, p, left) matches Err(e) ==> complains(ts, e),
    decreases ts.len() - p,
{
    if tok_at(ts, p) is Semicolon && !(tok_at(ts, p + 1) is Eof) {
        lemma_and_or_complains(ts, p + 1);
        lemma_and_or_end(ts, p + 1);
        if let Ok((right, q)) = and_or_at(ts, p + 1) {
            lemma_sequence_rest_complains(
                ts,
                q,
                Tree::Sequence(Box::new(left), Box::new(right)),
            );
        }
    }
}

/// An input that does not parse is complained about for one of two reasons: a command
/// is missing, or a filename behind an operator of redirection, which is named
/// together with what was found instead.
pub proof fn law_parse_says_what_is_wrong(s: Seq<char>)
    ensures
        parsed(s) matches Err(e) ==> e == "syntax error: expected a command"@ || exists|k: int|
            #[trigger] misses_filename(lexed(s), k, e),
{
    let ts = lexed(s);
    lemma_and_or_complains(ts, 0);
    if let Ok((left, q)) = and_or_at(ts, 0) {
        lemma_sequence_rest_complains(ts, q, left);
    }
}

/// An input that starts with an operator of redirection without a word behind it is
/// complained about for that; one that starts with any other operator, for the
/// missing command.
pub proof fn law_first_token_is_complained_about(s: Seq<char>)
    requires
        lexed(s).len() > 1,
        !(lexed(s)[0] is Word),
        is_redirection(lexed(s)[0]) ==> !(lexed(s)[1] is Word),
    ensures
        parsed(s) is Err,
        is_redirection(lexed(s)[0]) ==> misses_filename(lexed(s), 0, parsed(s)->Err_0),
        !is_redirection(lexed(s)[0]) ==> parsed(s)->Err_0 == "syntax error: expected a command"@,
{
    let ts = lexed(s);
    law_one_eof_at_the_end(s);
    assert(tok_at(ts, 0) == ts[0] && tok_at(ts, 1) == ts[1]);
    assert(!(ts[0] is Eof));
    if is_redirection(ts[0]) {
        lemma_sign_is_written(ts[0]);
    }
    assert(command_at(ts, 0, no_items()) is Err);
}

/// A token is named in a complaint as it is named in the library.
pub proof fn law_token_names(w: Seq<Part>)
    ensures
        token_name(Tok::Word(w)) == "Word"@,
        token_name(Tok::Pipe) == "Pipe"@,
        token_name(Tok::And) == "And"@,
        token_name(Tok::Or) == "Or"@,
        token_name(Tok::Semicolon) == "Semicolon"@,
        token_name(Tok::RedirectIn) == "RedirectIn"@,
        token_name(Tok::RedirectOut) == "RedirectOut"@,
        token_name(Tok::RedirectAppend) == "RedirectAppend"@,
        token_name(Tok::RedirectErrOut) == "RedirectErrOut"@,
        token_name(Tok::RedirectErrAppend) == "RedirectErrAppend"@,
        token_name(Tok::RedirectBoth) == "RedirectBoth"@,
        token_name(Tok::Eof) == "Eof"@,
{
}

} // verus!
