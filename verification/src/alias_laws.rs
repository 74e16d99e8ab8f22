//! What an alias call comes to is what typing it out comes to.

use vstd::prelude::*;

use crate::alias::{
    extended, invocation_tree, lemma_extended_by_nothing, tree_extended, tree_spliced,
    tree_with_args,
};
use crate::ast::{Cmd, Redir, Tree};
use crate::lexer::{after, closed_by, is_quote, lemma_plain_end_is, lexed, operator, plain, scan};
use crate::lexer_laws::{
    bare, law_bare_text_is_one_word, law_blank_separates, law_lone_ampersand_is_text,
    law_one_eof_at_the_end, law_operators_lex_apart, law_quoted_text_is_one_word,
    law_space_and_tab_separate, lemma_closed_join, quotes_closed,
};
use crate::parser::{
    and_or_at, and_or_rest, command_at, law_parse_leaves_nothing_over, lemma_and_or_end,
    lemma_command_end, lemma_pipeline_end, no_items, parsed, piped, pipeline_at, pipeline_rest,
    redirect_sign, redirect_to, sequence_at, sequence_rest, tok_at, tree_of_tokens,
};
use crate::parser_laws::{in_place, law_parse_accepts_exactly};
use crate::word::{law_text_ignores_quotes, text_of, Part, RunKind, Tok};

verus! {

// ---------------------------------------------------------------------
// One more item at the end
// ---------------------------------------------------------------------

/// The tokens `ts` and the end of input.
pub open spec fn ended(ts: Seq<Tok>) -> Seq<Tok> {
    ts.push(Tok::Eof)
}

/// One more item of a command: its tokens, and what they add to the command.
pub struct Item {
    pub toks: Seq<Tok>,
    pub words: Seq<Seq<Part>>,
    pub redirects: Seq<Redir>,
}

/// A word as an item.
pub open spec fn word_item(w: Seq<Part>) -> Item {
    Item { toks: seq![Tok::Word(w)], words: seq![w], redirects: Seq::empty() }
}

/// A redirection as an item.
pub open spec fn redirect_item(op: Tok, target: Seq<Part>) -> Item {
    Item {
        toks: seq![op, Tok::Word(target)],
        words: Seq::empty(),
        redirects: seq![redirect_to(op, target)],
    }
}

/// Whether `x` is a word or a redirection.
pub open spec fn is_item(x: Item) -> bool {
    ||| exists|w: Seq<Part>| x == #[trigger] word_item(w)
    ||| exists|op: Tok, target: Seq<Part>|
        redirect_sign(op) is Some && x == #[trigger] redirect_item(op, target)
}

/// The tokens `ts`, one more item, and the end of input.
pub open spec fn ended_with(ts: Seq<Tok>, x: Item) -> Seq<Tok> {
    (ts + x.toks).push(Tok::Eof)
}

/// Tokens that end in a word and hold no end of input.
pub open spec fn ends_in_word(ts: Seq<Tok>) -> bool {
    ts.len() > 0 && ts.last() is Word && forall|k: int|
        0 <= k < ts.len() ==> !(#[trigger] ts[k] is Eof)
}

/// `tree` with the item added to its last command.
pub open spec fn one_more(tree: Tree, x: Item) -> Tree {
    tree_extended(tree, x.words, x.redirects)
}

/// Whether `b` is what a parse of `ended_with(ts, x)` comes to where `a` is what
/// it comes to on `ended(ts)`: the same before the end, and at the end with one
/// more item.
spec fn grows(
    ts: Seq<Tok>,
    x: Item,
    a: Result<(Tree, int), Seq<char>>,
    b: Result<(Tree, int), Seq<char>>,
) -> bool {
    a matches Ok((t, q)) ==> q <= ts.len() && b == if q < ts.len() {
        a
    } else {
        Ok::<(Tree, int), Seq<char>>((one_more(t, x), ts.len() as int + x.toks.len()))
    }
}

proof fn lemma_command_grows(ts: Seq<Tok>, x: Item, p: int, done: Cmd)
    requires
        ends_in_word(ts),
        is_item(x),
        0 <= p <= ts.len(),
        p == ts.len() ==> done.words.len() > 0 || done.redirects.len() > 0,
    ensures
        command_at(ended(ts), p, done) matches Ok((c, q)) ==> {
            &&& q <= ts.len()
            &&& q < ts.len() ==> command_at(ended_with(ts, x), p, done) == Ok::<
                (Cmd, int),
                Seq<char>,
            >((c, q))
            &&& q == ts.len() ==> command_at(ended_with(ts, x), p, done) == Ok::<
                (Cmd, int),
                Seq<char>,
            >((extended(c, x.words, x.redirects), q + x.toks.len()))
        },
    decreases ts.len() - p,
{
    let n = ts.len() as int;
    let m = x.toks.len() as int;
    let a = ended(ts);
    let b = ended_with(ts, x);
    if p == n {
        let more = extended(done, x.words, x.redirects);
        assert(tok_at(a, n) is Eof);
        assert(tok_at(b, n) == x.toks[0]);
        assert(tok_at(b, n + m) is Eof);
        if exists|w: Seq<Part>| x == #[trigger] word_item(w) {
            let w = choose|w: Seq<Part>| x == #[trigger] word_item(w);
            assert(more =~= Cmd { words: done.words.push(w), ..done });
        } else {
            let (op, target) = choose|op: Tok, target: Seq<Part>|
                redirect_sign(op) is Some && x == #[trigger] redirect_item(op, target);
            assert(tok_at(b, n + 1) == x.toks[1]);
            assert(more =~= Cmd {
                redirects: done.redirects.push(redirect_to(op, target)),
                ..done
            });
        }
        assert(command_at(b, n + m, more) == Ok::<(Cmd, int), Seq<char>>((more, n + m)));
    } else {
        assert(tok_at(a, p) == ts[p]);
        assert(tok_at(b, p) == ts[p]);
        match ts[p] {
            Tok::Word(v) => {
                lemma_command_grows(ts, x, p + 1, Cmd { words: done.words.push(v), ..done });
            },
            op => {
                if redirect_sign(op) is Some {
                    assert(p + 1 < n);
                    assert(tok_at(a, p + 1) == ts[p + 1]);
                    assert(tok_at(b, p + 1) == ts[p + 1]);
                    if let Tok::Word(target) = ts[p + 1] {
                        lemma_command_grows(
                            ts,
                            x,
                            p + 2,
                            Cmd { redirects: done.redirects.push(redirect_to(op, target)), ..done },
                        );
                    }
                }
            },
        }
    }
}

proof fn lemma_piped_grows(cmds: Seq<Cmd>, c: Cmd, x: Item)
    ensures
        piped(cmds.push(extended(c, x.words, x.redirects))) == one_more(piped(cmds.push(c)), x),
{
    let big = extended(c, x.words, x.redirects);
    if cmds.len() > 0 {
        assert(cmds.push(big) =~= cmds.push(c).update(cmds.len() as int, big));
    }
}

proof fn lemma_pipeline_rest_grows(ts: Seq<Tok>, x: Item, p: int, cmds: Seq<Cmd>)
    requires
        ends_in_word(ts),
        is_item(x),
        0 <= p < ts.len(),
    ensures
        grows(
            ts,
            x,
            pipeline_rest(ended(ts), p, cmds),
            pipeline_rest(ended_with(ts, x), p, cmds),
        ),
    decreases ts.len() - p,
{
    let n = ts.len() as int;
    let m = x.toks.len() as int;
    let a = ended(ts);
    let b = ended_with(ts, x);
    assert(tok_at(a, p) == ts[p]);
    assert(tok_at(b, p) == ts[p]);
    if ts[p] is Pipe {
        assert(p + 1 < n);
        lemma_command_grows(ts, x, p + 1, no_items());
        lemma_command_end(a, p + 1, no_items());
        if let Ok((c, q)) = command_at(a, p + 1, no_items()) {
            if q < n {
                lemma_pipeline_rest_grows(ts, x, q, cmds.push(c));
            } else {
                let big = extended(c, x.words, x.redirects);
                assert(tok_at(a, n) is Eof);
                assert(tok_at(b, n + m) is Eof);
                lemma_piped_grows(cmds, c, x);
                assert(pipeline_rest(a, n, cmds.push(c)) == Ok::<(Tree, int), Seq<char>>(
                    (piped(cmds.push(c)), n),
                ));
                assert(pipeline_rest(b, n + m, cmds.push(big)) == Ok::<(Tree, int), Seq<char>>(
                    (piped(cmds.push(big)), n + m),
                ));
            }
        }
    }
}

proof fn lemma_pipeline_grows(ts: Seq<Tok>, x: Item, p: int)
    requires
        ends_in_word(ts),
        is_item(x),
        0 <= p < ts.len(),
    ensures
        grows(ts, x, pipeline_at(ended(ts), p), pipeline_at(ended_with(ts, x), p)),
{
    let n = ts.len() as int;
    let m = x.toks.len() as int;
    let a = ended(ts);
    let b = ended_with(ts, x);
    lemma_command_grows(ts, x, p, no_items());
    if let Ok((c, q)) = command_at(a, p, no_items()) {
        lemma_command_end(a, p, no_items());
        if q < n {
            lemma_pipeline_rest_grows(ts, x, q, seq![c]);
        } else {
            assert(tok_at(a, n) is Eof);
            assert(tok_at(b, n + m) is Eof);
            lemma_piped_grows(Seq::empty(), c, x);
            assert(Seq::<Cmd>::empty().push(c) =~= seq![c]);
            let big = extended(c, x.words, x.redirects);
            assert(Seq::<Cmd>::empty().push(big) =~= seq![big]);
        }
    }
}

proof fn lemma_and_or_rest_grows(ts: Seq<Tok>, x: Item, p: int, left: Tree)
    requires
        ends_in_word(ts),
        is_item(x),
        0 <= p < ts.len(),
    ensures
        grows(ts, x, and_or_rest(ended(ts), p, left), and_or_rest(ended_with(ts, x), p, left)),
    decreases ts.len() - p,
{
    let n = ts.len() as int;
    let m = x.toks.len() as int;
    let a = ended(ts);
    let b = ended_with(ts, x);
    assert(tok_at(a, p) == ts[p]);
    assert(tok_at(b, p) == ts[p]);
    if ts[p] is And || ts[p] is Or {
        assert(p + 1 < n);
        lemma_pipeline_grows(ts, x, p + 1);
        lemma_pipeline_end(a, p + 1);
        if let Ok((right, q)) = pipeline_at(a, p + 1) {
            let both = if ts[p] is And {
                Tree::And(Box::new(left), Box::new(right))
            } else {
                Tree::Or(Box::new(left), Box::new(right))
            };
            if q < n {
                lemma_and_or_rest_grows(ts, x, q, both);
            } else {
                assert(tok_at(a, n) is Eof);
                assert(tok_at(b, n + m) is Eof);
                assert(and_or_rest(a, n, both) == Ok::<(Tree, int), Seq<char>>((both, n)));
                assert(and_or_rest(b, n + m, one_more(both, x)) == Ok::<(Tree, int), Seq<char>>(
                    (one_more(both, x), n + m),
                ));
            }
        }
    }
}

proof fn lemma_and_or_grows(ts: Seq<Tok>, x: Item, p: int)
    requires
        ends_in_word(ts),
        is_item(x),
        0 <= p < ts.len(),
    ensures
        grows(ts, x, and_or_at(ended(ts), p), and_or_at(ended_with(ts, x), p)),
{
    let n = ts.len() as int;
    let m = x.toks.len() as int;
    lemma_pipeline_grows(ts, x, p);
    lemma_pipeline_end(ended(ts), p);
    if let Ok((left, q)) = pipeline_at(ended(ts), p) {
        if q < n {
            lemma_and_or_rest_grows(ts, x, q, left);
        } else {
            assert(tok_at(ended(ts), n) is Eof);
            assert(tok_at(ended_with(ts, x), n + m) is Eof);
        }
    }
}

proof fn lemma_sequence_rest_grows(ts: Seq<Tok>, x: Item, p: int, left: Tree)
    requires
        ends_in_word(ts),
        is_item(x),
        0 <= p < ts.len(),
    ensures
        grows(ts, x, sequence_rest(ended(ts), p, left), sequence_rest(ended_with(ts, x), p, left)),
    decreases ts.len() - p,
{
    let n = ts.len() as int;
    let m = x.toks.len() as int;
    let a = ended(ts);
    let b = ended_with(ts, x);
    assert(tok_at(a, p) == ts[p]);
    assert(tok_at(b, p) == ts[p]);
    if ts[p] is Semicolon {
        assert(p + 1 < n);
        assert(tok_at(a, p + 1) == ts[p + 1]);
        assert(tok_at(b, p + 1) == ts[p + 1]);
        lemma_and_or_grows(ts, x, p + 1);
        lemma_and_or_end(a, p + 1);
        if let Ok((right, q)) = and_or_at(a, p + 1) {
            let both = Tree::Sequence(Box::new(left), Box::new(right));
            if q < n {
                lemma_sequence_rest_grows(ts, x, q, both);
            } else {
                assert(tok_at(a, n) is Eof);
                assert(tok_at(b, n + m) is Eof);
                assert(sequence_rest(a, n, both) == Ok::<(Tree, int), Seq<char>>((both, n)));
                assert(sequence_rest(b, n + m, one_more(both, x)) == Ok::<
                    (Tree, int),
                    Seq<char>,
                >((one_more(both, x), n + m)));
            }
        }
    }
}

/// One more item behind tokens that end in a word goes to the last command.
pub proof fn lemma_tree_grows(ts: Seq<Tok>, x: Item, tree: Tree)
    requires
        ends_in_word(ts),
        is_item(x),
        tree_of_tokens(ended(ts)) == Ok::<Option<Tree>, Seq<char>>(Some(tree)),
    ensures
        tree_of_tokens(ended_with(ts, x)) == Ok::<Option<Tree>, Seq<char>>(
            Some(one_more(tree, x)),
        ),
{
    let n = ts.len() as int;
    let m = x.toks.len() as int;
    let a = ended(ts);
    let b = ended_with(ts, x);
    assert(tok_at(b, 0) == ts[0]);
    lemma_and_or_grows(ts, x, 0);
    lemma_and_or_end(a, 0);
    law_parse_leaves_nothing_over(a, 0);
    let (left, q) = and_or_at(a, 0)->Ok_0;
    if q < n {
        lemma_sequence_rest_grows(ts, x, q, left);
        let (t, e) = sequence_at(a, 0)->Ok_0;
        assert(tok_at(a, e) is Eof);
        assert(e == n) by {
            if e < n {
                assert(tok_at(a, e) == ts[e]);
            }
        }
    } else {
        assert(tok_at(a, n) is Eof);
        assert(tok_at(b, n + m) is Eof);
    }
}


// ---------------------------------------------------------------------
// Typing it out
// ---------------------------------------------------------------------

/// Whether a text is one word, with its quotes closed.
pub open spec fn one_word(text: Seq<char>) -> bool {
    &&& quotes_closed(text, 0)
    &&& lexed(text).len() == 2
    &&& lexed(text)[0] is Word
}

/// The word that a text is.
pub open spec fn typed_word(text: Seq<char>) -> Seq<Part> {
    lexed(text)[0]->Word_0
}

/// The words that texts are.
pub open spec fn typed_words(args: Seq<Seq<char>>) -> Seq<Seq<Part>> {
    args.map_values(|t: Seq<char>| typed_word(t))
}

/// The redirections that operators make of texts.
pub open spec fn typed_redirects(redirects: Seq<(Tok, Seq<char>)>) -> Seq<Redir> {
    redirects.map_values(|r: (Tok, Seq<char>)| redirect_to(r.0, typed_word(r.1)))
}

/// Bare text is typed as one unquoted word.
pub proof fn law_bare_text_is_typed_as_one_word(text: Seq<char>)
    requires
        text.len() > 0,
        bare(text),
    ensures
        one_word(text),
        typed_word(text) == seq![Part { kind: RunKind::Unquoted, text }],
{
    law_bare_text_is_one_word(text);
}

/// Any text between quotes of a kind that it does not hold is typed as one quoted
/// word.
pub proof fn law_quoted_text_is_typed_as_one_word(q: char, s: Seq<char>)
    requires
        is_quote(q),
        !s.contains(q),
    ensures
        one_word(seq![q] + s + seq![q]),
        typed_word(seq![q] + s + seq![q]) == seq![Part { kind: RunKind::of_quote(q), text: s }],
{
    law_quoted_text_is_one_word(q, s);
}

proof fn lemma_one_word_tokens(text: Seq<char>)
    requires
        one_word(text),
    ensures
        lexed(text) == seq![Tok::Word(typed_word(text)), Tok::Eof],
{
    law_one_eof_at_the_end(text);
    assert(lexed(text) =~= seq![Tok::Word(typed_word(text)), Tok::Eof]);
}

/// `s` with the arguments typed behind it.
pub open spec fn with_args_typed(s: Seq<char>, args: Seq<Seq<char>>) -> Seq<char>
    decreases args.len(),
{
    if args.len() == 0 {
        s
    } else {
        with_args_typed(s, args.drop_last()) + seq![' '] + args.last()
    }
}

/// `s` with the redirections typed behind it.
pub open spec fn with_redirects_typed(
    s: Seq<char>,
    redirects: Seq<(Tok, Seq<char>)>,
) -> Seq<char>
    decreases redirects.len(),
{
    if redirects.len() == 0 {
        s
    } else {
        let (op, target) = redirects.last();
        with_redirects_typed(s, redirects.drop_last()) + seq![' '] + (redirect_sign(op)->0 + seq![
            ' ',
        ] + target)
    }
}

/// Whether each is one word.
pub open spec fn all_words(args: Seq<Seq<char>>) -> bool {
    forall|k: int| 0 <= k < args.len() ==> one_word(#[trigger] args[k])
}

/// Whether each is an operator of redirection and one word.
pub open spec fn all_targets(redirects: Seq<(Tok, Seq<char>)>) -> bool {
    forall|k: int|
        0 <= k < redirects.len() ==> redirect_sign((#[trigger] redirects[k]).0) is Some
            && one_word(redirects[k].1)
}

/// Whether a text closes its quotes, ends in a word, and parses to `tree`.
#[verifier::opaque]
spec fn reads_as(s: Seq<char>, tree: Tree) -> bool {
    &&& quotes_closed(s, 0)
    &&& lexed(s).len() > 0
    &&& lexed(s) == ended(lexed(s).drop_last())
    &&& ends_in_word(lexed(s).drop_last())
    &&& parsed(s) == Ok::<Option<Tree>, Seq<char>>(Some(tree))
}

/// The tokens of the sign of a redirection.
proof fn lemma_sign_tokens(op: Tok)
    requires
        redirect_sign(op) is Some,
    ensures
        lexed(redirect_sign(op)->0) == seq![op, Tok::Eof],
        quotes_closed(redirect_sign(op)->0, 0),
{
    reveal_strlit("<");
    reveal_strlit(">");
    reveal_strlit(">>");
    reveal_strlit("2>");
    reveal_strlit("2>>");
    reveal_strlit("&>");
    reveal_strlit("2");
    reveal_with_fuel(quotes_closed, 4);
    let s = redirect_sign(op)->0;
    let none = Seq::<Part>::empty();
    let n = s.len() as int;
    assert(scan(s, n, none) == (Seq::<Tok>::empty(), none));
    assert(seq![op] + Seq::<Tok>::empty() =~= seq![op]);
    if op is RedirectErrOut || op is RedirectErrAppend {
        assert(plain(s, 0));
        assert(!plain(s, 1));
        lemma_plain_end_is(s, 0, 1);
        assert(s.subrange(0, 1) =~= "2"@);
        let two = none.push(Part { kind: RunKind::Unquoted, text: "2"@ });
        assert(scan(s, 0, none) == scan(s, 1, two));
        let (o, width) = operator(s, 1)->0;
        assert(1 + width == n);
        assert(closed_by(two, o) == seq![op]);
        assert(scan(s, 1, two) == after(seq![op], scan(s, n, none)));
    } else {
        let (o, width) = operator(s, 0)->0;
        assert(o == op && width == n);
        assert(closed_by(none, o) =~= seq![op]);
        assert(scan(s, 0, none) == after(seq![op], scan(s, n, none)));
    }
    assert(scan(s, 0, none) == (seq![op], none));
    assert(lexed(s) =~= seq![op, Tok::Eof]);
}

proof fn lemma_blank_closed(s: Seq<char>)
    requires
        quotes_closed(s, 0),
    ensures
        quotes_closed(seq![' '] + s, 0),
{
    let blank = seq![' '];
    assert(quotes_closed(blank, 1));
    assert(quotes_closed(blank, 0));
    lemma_closed_join(blank, s);
}

proof fn lemma_type_word(s: Seq<char>, tree: Tree, text: Seq<char>)
    requires
        reads_as(s, tree),
        one_word(text),
    ensures
        reads_as(s + seq![' '] + text, one_more(tree, word_item(typed_word(text)))),
{
    reveal(reads_as);
    let x = word_item(typed_word(text));
    let ts = lexed(s).drop_last();
    let t = s + seq![' '] + text;
    lemma_one_word_tokens(text);
    law_blank_separates(s, ' ', text);
    lemma_blank_closed(text);
    lemma_closed_join(s, seq![' '] + text);
    assert(s + (seq![' '] + text) =~= t);
    assert(is_item(x));
    assert(lexed(t) =~= ended_with(ts, x));
    lemma_tree_grows(ts, x, tree);
    lemma_ends_again(t, ts, x);
}

proof fn lemma_ends_again(t: Seq<char>, ts: Seq<Tok>, x: Item)
    requires
        ends_in_word(ts),
        is_item(x),
        lexed(t) == ended_with(ts, x),
    ensures
        lexed(t) == ended(lexed(t).drop_last()),
        ends_in_word(lexed(t).drop_last()),
{
    let us = lexed(t).drop_last();
    assert(us =~= ts + x.toks);
    assert(lexed(t) =~= ended(us));
    assert forall|k: int| 0 <= k < us.len() implies !(#[trigger] us[k] is Eof) by {
        if k < ts.len() {
            assert(us[k] == ts[k]);
        } else {
            assert(us[k] == x.toks[k - ts.len()]);
        }
    }
    assert(us.last() == x.toks.last());
}

proof fn lemma_type_redirect(s: Seq<char>, tree: Tree, op: Tok, text: Seq<char>)
    requires
        reads_as(s, tree),
        redirect_sign(op) is Some,
        one_word(text),
    ensures
        reads_as(
            s + seq![' '] + (redirect_sign(op)->0 + seq![' '] + text),
            one_more(tree, redirect_item(op, typed_word(text))),
        ),
{
    reveal(reads_as);
    let x = redirect_item(op, typed_word(text));
    let ts = lexed(s).drop_last();
    let sign = redirect_sign(op)->0;
    let last = sign + seq![' '] + text;
    let t = s + seq![' '] + last;
    lemma_sign_tokens(op);
    lemma_one_word_tokens(text);
    law_blank_separates(sign, ' ', text);
    law_blank_separates(s, ' ', last);
    lemma_blank_closed(text);
    lemma_closed_join(sign, seq![' '] + text);
    assert(sign + (seq![' '] + text) =~= last);
    lemma_blank_closed(last);
    lemma_closed_join(s, seq![' '] + last);
    assert(s + (seq![' '] + last) =~= t);
    assert(is_item(x));
    assert(lexed(last) =~= x.toks.push(Tok::Eof));
    assert(lexed(t) =~= ended_with(ts, x));
    lemma_tree_grows(ts, x, tree);
    lemma_ends_again(t, ts, x);
}

/// To add twice is to add both.
proof fn lemma_extended_twice(
    tree: Tree,
    w1: Seq<Seq<Part>>,
    r1: Seq<Redir>,
    w2: Seq<Seq<Part>>,
    r2: Seq<Redir>,
)
    ensures
        tree_extended(tree_extended(tree, w1, r1), w2, r2) == tree_extended(tree, w1 + w2, r1 + r2),
    decreases tree,
{
    match tree {
        Tree::Command(cmd) => {
            assert(extended(extended(cmd, w1, r1), w2, r2) =~= extended(cmd, w1 + w2, r1 + r2));
        },
        Tree::Pipeline(stages) => {
            if stages.len() > 0 {
                let n = stages.len() - 1;
                let last = stages.last();
                assert(extended(extended(last, w1, r1), w2, r2) =~= extended(
                    last,
                    w1 + w2,
                    r1 + r2,
                ));
                assert(stages.update(n, extended(last, w1, r1)).update(
                    n,
                    extended(last, w1 + w2, r1 + r2),
                ) =~= stages.update(n, extended(last, w1 + w2, r1 + r2)));
            }
        },
        Tree::And(_, r) => lemma_extended_twice(*r, w1, r1, w2, r2),
        Tree::Or(_, r) => lemma_extended_twice(*r, w1, r1, w2, r2),
        Tree::Sequence(_, r) => lemma_extended_twice(*r, w1, r1, w2, r2),
    }
}

proof fn lemma_type_args(s: Seq<char>, tree: Tree, args: Seq<Seq<char>>)
    requires
        reads_as(s, tree),
        all_words(args),
    ensures
        reads_as(with_args_typed(s, args), tree_extended(tree, typed_words(args), Seq::empty())),
    decreases args.len(),
{
    if args.len() == 0 {
        lemma_extended_by_nothing(tree);
        assert(typed_words(args) =~= Seq::empty());
    } else {
        let less = args.drop_last();
        assert(args[args.len() - 1] == args.last());
        assert forall|k: int| 0 <= k < less.len() implies one_word(#[trigger] less[k]) by {
            assert(less[k] == args[k]);
        }
        lemma_type_args(s, tree, less);
        let t = tree_extended(tree, typed_words(less), Seq::empty());
        lemma_type_word(with_args_typed(s, less), t, args.last());
        lemma_extended_twice(
            tree,
            typed_words(less),
            Seq::empty(),
            seq![typed_word(args.last())],
            Seq::empty(),
        );
        assert(typed_words(less) + seq![typed_word(args.last())] =~= typed_words(args));
        assert(Seq::<Redir>::empty() + Seq::<Redir>::empty() =~= Seq::empty());
    }
}

proof fn lemma_type_redirects(s: Seq<char>, tree: Tree, redirects: Seq<(Tok, Seq<char>)>)
    requires
        reads_as(s, tree),
        all_targets(redirects),
    ensures
        reads_as(
            with_redirects_typed(s, redirects),
            tree_extended(tree, Seq::empty(), typed_redirects(redirects)),
        ),
    decreases redirects.len(),
{
    if redirects.len() == 0 {
        lemma_extended_by_nothing(tree);
        assert(typed_redirects(redirects) =~= Seq::empty());
    } else {
        let less = redirects.drop_last();
        let (op, target) = redirects.last();
        assert(redirects[redirects.len() - 1] == redirects.last());
        assert forall|k: int| 0 <= k < less.len() implies redirect_sign((#[trigger] less[k]).0)
            is Some && one_word(less[k].1) by {
            assert(less[k] == redirects[k]);
        }
        lemma_type_redirects(s, tree, less);
        let t = tree_extended(tree, Seq::empty(), typed_redirects(less));
        lemma_type_redirect(with_redirects_typed(s, less), t, op, target);
        let one = seq![redirect_to(op, typed_word(target))];
        lemma_extended_twice(tree, Seq::empty(), typed_redirects(less), Seq::empty(), one);
        assert(typed_redirects(less) + one =~= typed_redirects(redirects));
        assert(Seq::<Seq<Part>>::empty() + Seq::<Seq<Part>>::empty() =~= Seq::empty());
    }
}

/// A value that parses, closes its quotes and does not end in `;` ends in a word.
proof fn lemma_value_reads(value: Seq<char>, tree: Tree)
    requires
        quotes_closed(value, 0),
        parsed(value) == Ok::<Option<Tree>, Seq<char>>(Some(tree)),
        !(lexed(value)[lexed(value).len() - 2] is Semicolon),
    ensures
        reads_as(value, tree),
{
    reveal(reads_as);
    let all = lexed(value);
    let ts = all.drop_last();
    law_one_eof_at_the_end(value);
    law_parse_accepts_exactly(value);
    if all.len() == 1 {
        assert(tok_at(all, 0) is Eof);
    }
    let k = all.len() - 2;
    assert(in_place(all, k));
    assert(tok_at(all, k) == all[k]);
    assert(tok_at(all, k + 1) is Eof);
    assert(all =~= ended(ts));
    assert forall|j: int| 0 <= j < ts.len() implies !(#[trigger] ts[j] is Eof) by {
        assert(ts[j] == all[j]);
    }
    assert(ts.last() == all[k]);
}

/// An alias call is what typing it out would be: the value, and behind it the
/// arguments and redirections of the call, bare or quoted. This needs a value that
/// closes its quotes, does not end in `;` and does not place its arguments itself.
pub proof fn law_call_is_as_typed(
    value: Seq<char>,
    tree: Tree,
    args: Seq<Seq<char>>,
    redirects: Seq<(Tok, Seq<char>)>,
)
    requires
        quotes_closed(value, 0),
        parsed(value) == Ok::<Option<Tree>, Seq<char>>(Some(tree)),
        !(lexed(value)[lexed(value).len() - 2] is Semicolon),
        tree_spliced(tree, typed_words(args)) is None,
        all_words(args),
        all_targets(redirects),
    ensures
        parsed(with_redirects_typed(with_args_typed(value, args), redirects)) == Ok::<
            Option<Tree>,
            Seq<char>,
        >(Some(invocation_tree(tree, typed_words(args), typed_redirects(redirects)))),
{
    lemma_value_reads(value, tree);
    lemma_type_args(value, tree, args);
    let t = tree_extended(tree, typed_words(args), Seq::empty());
    assert(tree_with_args(tree, typed_words(args)) == t);
    lemma_type_redirects(with_args_typed(value, args), t, redirects);
    reveal(reads_as);
}

/// A call with one argument and its output sent to a file is its value, the
/// argument, `>` and the file, typed one behind the other.
pub proof fn law_call_with_output_is_as_typed(
    value: Seq<char>,
    tree: Tree,
    arg: Seq<char>,
    file: Seq<char>,
)
    requires
        quotes_closed(value, 0),
        parsed(value) == Ok::<Option<Tree>, Seq<char>>(Some(tree)),
        !(lexed(value)[lexed(value).len() - 2] is Semicolon),
        tree_spliced(tree, seq![typed_word(arg)]) is None,
        one_word(arg),
        one_word(file),
    ensures
        parsed(value + " "@ + arg + " > "@ + file) == Ok::<Option<Tree>, Seq<char>>(
            Some(
                invocation_tree(
                    tree,
                    seq![typed_word(arg)],
                    seq![Redir::Out(typed_word(file))],
                ),
            ),
        ),
{
    reveal_strlit(" ");
    reveal_strlit(" > ");
    reveal_strlit(">");
    let args = seq![arg];
    let redirects = seq![(Tok::RedirectOut, file)];
    assert(typed_words(args) =~= seq![typed_word(arg)]);
    assert(typed_redirects(redirects) =~= seq![Redir::Out(typed_word(file))]);
    assert(args.drop_last() =~= Seq::empty());
    assert(redirects.drop_last() =~= Seq::empty());
    law_call_is_as_typed(value, tree, args, redirects);
    assert(with_args_typed(value, args.drop_last()) == value);
    let typed = with_args_typed(value, args);
    assert(typed =~= value + " "@ + arg);
    assert(with_redirects_typed(typed, redirects.drop_last()) == typed);
    assert(with_redirects_typed(typed, redirects) =~= value + " "@ + arg + " > "@ + file);
}

/// The signs of redirections between blanks.
proof fn lemma_padded_signs()
    ensures
        " < "@ == seq![' '] + redirect_sign(Tok::RedirectIn)->0 + seq![' '],
        " > "@ == seq![' '] + redirect_sign(Tok::RedirectOut)->0 + seq![' '],
        " >> "@ == seq![' '] + redirect_sign(Tok::RedirectAppend)->0 + seq![' '],
        " 2> "@ == seq![' '] + redirect_sign(Tok::RedirectErrOut)->0 + seq![' '],
        " 2>> "@ == seq![' '] + redirect_sign(Tok::RedirectErrAppend)->0 + seq![' '],
        " &> "@ == seq![' '] + redirect_sign(Tok::RedirectBoth)->0 + seq![' '],
{
    reveal_strlit(" < ");
    reveal_strlit(" > ");
    reveal_strlit(" >> ");
    reveal_strlit(" &> ");
    reveal_strlit(" 2> ");
    reveal_strlit(" 2>> ");
    reveal_strlit("<");
    reveal_strlit(">");
    reveal_strlit(">>");
    reveal_strlit("&>");
    reveal_strlit("2>");
    reveal_strlit("2>>");
    assert(" < "@ =~= seq![' '] + "<"@ + seq![' ']);
    assert(" > "@ =~= seq![' '] + ">"@ + seq![' ']);
    assert(" >> "@ =~= seq![' '] + ">>"@ + seq![' ']);
    assert(" 2> "@ =~= seq![' '] + "2>"@ + seq![' ']);
    assert(" 2>> "@ =~= seq![' '] + "2>>"@ + seq![' ']);
    assert(" &> "@ =~= seq![' '] + "&>"@ + seq![' ']);
}

/// `< file` behind a command feeds it from the file.
pub proof fn law_typed_input(value: Seq<char>, tree: Tree, text: Seq<char>)
    requires
        quotes_closed(value, 0),
        parsed(value) == Ok::<Option<Tree>, Seq<char>>(Some(tree)),
        !(lexed(value)[lexed(value).len() - 2] is Semicolon),
        one_word(text),
    ensures
        parsed(value + " < "@ + text) == Ok::<Option<Tree>, Seq<char>>(
            Some(tree_extended(tree, Seq::empty(), seq![Redir::In(typed_word(text))])),
        ),
{
    lemma_value_reads(value, tree);
    lemma_padded_signs();
    lemma_typed_sign(value, tree, Tok::RedirectIn, " < "@, text);
}

/// `> file` behind a command sends its output to the file.
pub proof fn law_typed_output(value: Seq<char>, tree: Tree, text: Seq<char>)
    requires
        quotes_closed(value, 0),
        parsed(value) == Ok::<Option<Tree>, Seq<char>>(Some(tree)),
        !(lexed(value)[lexed(value).len() - 2] is Semicolon),
        one_word(text),
    ensures
        parsed(value + " > "@ + text) == Ok::<Option<Tree>, Seq<char>>(
            Some(tree_extended(tree, Seq::empty(), seq![Redir::Out(typed_word(text))])),
        ),
{
    lemma_value_reads(value, tree);
    lemma_padded_signs();
    lemma_typed_sign(value, tree, Tok::RedirectOut, " > "@, text);
}

/// `>> file` behind a command appends its output to the file.
pub proof fn law_typed_append(value: Seq<char>, tree: Tree, text: Seq<char>)
    requires
        quotes_closed(value, 0),
        parsed(value) == Ok::<Option<Tree>, Seq<char>>(Some(tree)),
        !(lexed(value)[lexed(value).len() - 2] is Semicolon),
        one_word(text),
    ensures
        parsed(value + " >> "@ + text) == Ok::<Option<Tree>, Seq<char>>(
            Some(tree_extended(tree, Seq::empty(), seq![Redir::Append(typed_word(text))])),
        ),
{
    lemma_value_reads(value, tree);
    lemma_padded_signs();
    lemma_typed_sign(value, tree, Tok::RedirectAppend, " >> "@, text);
}

/// `&> file` behind a command sends its output and its errors to the file.
pub proof fn law_typed_both(value: Seq<char>, tree: Tree, text: Seq<char>)
    requires
        quotes_closed(value, 0),
        parsed(value) == Ok::<Option<Tree>, Seq<char>>(Some(tree)),
        !(lexed(value)[lexed(value).len() - 2] is Semicolon),
        one_word(text),
    ensures
        parsed(value + " &> "@ + text) == Ok::<Option<Tree>, Seq<char>>(
            Some(tree_extended(tree, Seq::empty(), seq![Redir::Both(typed_word(text))])),
        ),
{
    lemma_value_reads(value, tree);
    lemma_padded_signs();
    lemma_typed_sign(value, tree, Tok::RedirectBoth, " &> "@, text);
}

/// `2> file` behind a command sends its errors to the file.
pub proof fn law_typed_errors(value: Seq<char>, tree: Tree, text: Seq<char>)
    requires
        quotes_closed(value, 0),
        parsed(value) == Ok::<Option<Tree>, Seq<char>>(Some(tree)),
        !(lexed(value)[lexed(value).len() - 2] is Semicolon),
        one_word(text),
        text_of(typed_word(text)) != "&1"@,
    ensures
        parsed(value + " 2> "@ + text) == Ok::<Option<Tree>, Seq<char>>(
            Some(tree_extended(tree, Seq::empty(), seq![Redir::ErrOut(typed_word(text))])),
        ),
{
    lemma_value_reads(value, tree);
    lemma_padded_signs();
    lemma_typed_sign(value, tree, Tok::RedirectErrOut, " 2> "@, text);
}

/// `2>> file` behind a command appends its errors to the file.
pub proof fn law_typed_errors_append(value: Seq<char>, tree: Tree, text: Seq<char>)
    requires
        quotes_closed(value, 0),
        parsed(value) == Ok::<Option<Tree>, Seq<char>>(Some(tree)),
        !(lexed(value)[lexed(value).len() - 2] is Semicolon),
        one_word(text),
        text_of(typed_word(text)) != "&1"@,
    ensures
        parsed(value + " 2>> "@ + text) == Ok::<Option<Tree>, Seq<char>>(
            Some(tree_extended(tree, Seq::empty(), seq![Redir::ErrAppend(typed_word(text))])),
        ),
{
    lemma_value_reads(value, tree);
    lemma_padded_signs();
    lemma_typed_sign(value, tree, Tok::RedirectErrAppend, " 2>> "@, text);
}

proof fn lemma_typed_sign(
    value: Seq<char>,
    tree: Tree,
    op: Tok,
    sign: Seq<char>,
    text: Seq<char>,
)
    requires
        reads_as(value, tree),
        redirect_sign(op) is Some,
        sign == seq![' '] + redirect_sign(op)->0 + seq![' '],
        one_word(text),
    ensures
        parsed(value + sign + text) == Ok::<Option<Tree>, Seq<char>>(
            Some(
                tree_extended(
                    tree,
                    Seq::empty(),
                    seq![redirect_to(op, typed_word(text))],
                ),
            ),
        ),
{
    lemma_type_redirect(value, tree, op, text);
    assert(value + seq![' '] + (redirect_sign(op)->0 + seq![' '] + text) =~= value + sign + text);
    reveal(reads_as);
}

/// The word `&1`.
spec fn first_stream() -> Seq<Part> {
    seq![Part { kind: RunKind::Unquoted, text: "&1"@ }]
}

/// The tokens of a text with `2>&1` behind it.
proof fn lemma_errors_to_output_tokens(value: Seq<char>)
    requires
        quotes_closed(value, 0),
    ensures
        lexed(value + " 2>&1"@) == lexed(value).drop_last() + seq![
            Tok::RedirectErrOut,
            Tok::Word(first_stream()),
            Tok::Eof,
        ],
{
    reveal_strlit(" 2>&1");
    reveal_strlit("&1");
    let one = seq!['&', '1'];
    assert("&1"@ =~= one);
    let ts = lexed(value).drop_last();
    law_lone_ampersand_is_text(one);
    let front = value + seq![' '];
    let none = Seq::<char>::empty();
    law_space_and_tab_separate(value, none);
    assert(front + none =~= front);
    lemma_blank_closed(none);
    assert(seq![' '] + none =~= seq![' ']);
    lemma_closed_join(value, seq![' ']);
    assert(lexed(front).drop_last() =~= ts);
    law_operators_lex_apart(front, Tok::RedirectErrOut, one);
    assert(value + " 2>&1"@ =~= front + seq!['2', '>'] + one);
    assert(lexed(value + " 2>&1"@) =~= ts + seq![
        Tok::RedirectErrOut,
        Tok::Word(first_stream()),
        Tok::Eof,
    ]);
}

/// One more item typed behind a text, by its tokens.
proof fn lemma_typed_item(value: Seq<char>, tree: Tree, typed: Seq<char>, x: Item)
    requires
        reads_as(value, tree),
        is_item(x),
        lexed(typed) == ended_with(lexed(value).drop_last(), x),
    ensures
        parsed(typed) == Ok::<Option<Tree>, Seq<char>>(Some(one_more(tree, x))),
{
    reveal(reads_as);
    lemma_tree_grows(lexed(value).drop_last(), x, tree);
}

/// `2>&1` behind a command sends its errors where its output goes.
pub proof fn law_typed_errors_to_output(value: Seq<char>, tree: Tree)
    requires
        quotes_closed(value, 0),
        parsed(value) == Ok::<Option<Tree>, Seq<char>>(Some(tree)),
        !(lexed(value)[lexed(value).len() - 2] is Semicolon),
    ensures
        parsed(value + " 2>&1"@) == Ok::<Option<Tree>, Seq<char>>(
            Some(tree_extended(tree, Seq::empty(), seq![Redir::ErrToStdout])),
        ),
{
    let w = first_stream();
    let x = redirect_item(Tok::RedirectErrOut, w);
    lemma_value_reads(value, tree);
    lemma_errors_to_output_tokens(value);
    law_text_ignores_quotes(Seq::empty(), w, w[0]);
    assert(lexed(value + " 2>&1"@) =~= ended_with(lexed(value).drop_last(), x));
    lemma_typed_item(value, tree, value + " 2>&1"@, x);
}

} // verus!
