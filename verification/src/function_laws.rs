//! What function files define, and what a saved alias comes back as.

use vstd::prelude::*;

use crate::alias::{
    argv_from, extended, invocation_tree, no_empty_pipeline, spliced, taker_from, takes_args,
    tree_extended, tree_spliced,
};
use crate::alias_laws::{
    ended, ended_with, ends_in_word, is_item, lemma_tree_grows, one_more, word_item,
};
use crate::ast::{Cmd, Redir, Tree};
use crate::builtin::function_file;
use crate::functions::{
    block_body, end_from, function_block, function_definition, header_name, idle,
    law_blank_lines_and_comments_do_not_count, says_something, word_texts, working, working_from,
    Definition,
};
use crate::lexer::{lexed, scan};
use crate::lexer_laws::{
    bare, bare_char, law_bare_text_is_one_word, law_blank_separates, law_one_eof_at_the_end,
    ordinary, quotes_closed,
};
use crate::parser::{parsed, tok_at};
use crate::parser_laws::law_parse_groups_by_precedence;
use crate::path::{law_prefixes, starts};
use crate::text::{
    first_word, lemma_index_from_is, lemma_solid, lemma_solid_to, lines_from, solid_from,
    spaced, trimmed, trimmed_lines, white, white_from,
};
use crate::word::{text_of, Part, RunKind, Tok};

verus! {

proof fn lemma_solid_from_is(s: Seq<char>, i: int, e: int)
    requires
        0 <= i <= e < s.len(),
        forall|k: int| i <= k < e ==> white(#[trigger] s[k]),
        !white(s[e]),
    ensures
        solid_from(s, i) == e,
    decreases e - i,
{
    if i < e {
        assert(white(s[i]));
        lemma_solid_from_is(s, i + 1, e);
    }
}

/// White space in front of a text that does not end in white space is cut off.
proof fn lemma_trimmed_behind(p: Seq<char>, s: Seq<char>)
    requires
        forall|k: int| 0 <= k < p.len() ==> white(#[trigger] p[k]),
        s.len() > 0,
        !white(s.last()),
    ensures
        trimmed(p + s) == trimmed(s),
        trimmed(s).len() > 0,
        trimmed(s).last() == s.last(),
{
    let n = p.len() as int;
    lemma_solid(s, 0);
    let e = solid_from(s, 0);
    if e == s.len() {
        assert(white(s[s.len() - 1]));
    }
    assert forall|k: int| 0 <= k < n + e implies white(#[trigger] (p + s)[k]) by {
        if k < n {
            assert((p + s)[k] == p[k]);
        } else {
            assert((p + s)[k] == s[k - n]);
        }
    }
    assert((p + s)[n + e] == s[e]);
    lemma_solid_from_is(p + s, 0, n + e);
    assert((p + s).last() == s.last());
    assert((p + s).subrange(n + e, n + s.len()) =~= s.subrange(e, s.len() as int));
}

/// A text without white space at its ends is left as it is.
proof fn lemma_trimmed_already(s: Seq<char>)
    requires
        s.len() > 0,
        !white(s[0]),
        !white(s.last()),
    ensures
        trimmed(s) == s,
{
    assert(s.subrange(0, s.len() as int) =~= s);
}

proof fn lemma_line(x: Seq<char>, line: Seq<char>, rest: Seq<char>)
    requires
        line.len() > 0,
        !line.contains('\n'),
        line.last() != '\r',
    ensures
        lines_from(x + line + seq!['\n'] + rest, x.len() as int) == seq![line] + lines_from(
            x + line + seq!['\n'] + rest,
            (x + line + seq!['\n']).len() as int,
        ),
{
    let s = x + line + seq!['\n'] + rest;
    let i = x.len() as int;
    let e = i + line.len();
    assert forall|k: int| i <= k < e implies s[k] != '\n' by {
        assert(s[k] == line[k - i]);
        assert(line.contains(line[k - i]));
    }
    assert(s[e] == '\n');
    lemma_index_from_is(s, '\n', i, e);
    assert(s.subrange(i, e) =~= line);
}

/// Three lines, one below the other.
proof fn lemma_three_lines(a: Seq<char>, b: Seq<char>, c: Seq<char>)
    requires
        a.len() > 0 && !a.contains('\n') && a.last() != '\r',
        b.len() > 0 && !b.contains('\n') && b.last() != '\r',
        c.len() > 0 && !c.contains('\n') && c.last() != '\r',
    ensures
        lines_from(a + seq!['\n'] + b + seq!['\n'] + c + seq!['\n'], 0) == seq![a, b, c],
{
    let nl = seq!['\n'];
    let s = a + nl + b + nl + c + nl;
    let none = Seq::<char>::empty();
    lemma_line(none, a, b + nl + c + nl);
    assert(none + a + nl + (b + nl + c + nl) =~= s);
    lemma_line(a + nl, b, c + nl);
    assert(a + nl + b + nl + (c + nl) =~= s);
    lemma_line(a + nl + b + nl, c, none);
    assert(a + nl + b + nl + c + nl + none =~= s);
    assert((none + a + nl).len() == (a + nl).len());
    assert(lines_from(s, s.len() as int) =~= Seq::empty());
    assert(seq![a] + (seq![b] + (seq![c] + Seq::<Seq<char>>::empty())) =~= seq![a, b, c]);
}

proof fn lemma_word_texts_add(a: Seq<Tok>, b: Seq<Tok>)
    ensures
        word_texts(a + b) == word_texts(a) + word_texts(b),
    decreases b.len(),
{
    if b.len() == 0 {
        assert(a + b =~= a);
        assert(word_texts(a) + word_texts(b) =~= word_texts(a));
    } else {
        lemma_word_texts_add(a, b.drop_last());
        assert((a + b).drop_last() =~= a + b.drop_last());
        assert((a + b).last() == b.last());
        assert(word_texts(a + b) =~= word_texts(a) + word_texts(b));
    }
}

/// Whether a name is one word as it stands: nothing in it is a quote, a blank or
/// an operator.
pub open spec fn one_plain_word(name: Seq<char>) -> bool {
    &&& quotes_closed(name, 0)
    &&& lexed(name).len() == 2
    &&& lexed(name)[0] is Word
    &&& text_of(lexed(name)[0]->Word_0) == name
    &&& !name.contains('\n')
}

/// Bare text is one word as it stands.
pub proof fn lemma_bare_is_plain(s: Seq<char>)
    requires
        s.len() > 0,
        bare(s),
    ensures
        one_plain_word(s),
{
    law_bare_text_is_one_word(s);
    let part = Part { kind: RunKind::Unquoted, text: s };
    assert(seq![part].drop_last() =~= Seq::empty());
    assert(text_of(seq![part].drop_last()) + s =~= s);
    if s.contains('\n') {
        let k = choose|k: int| 0 <= k < s.len() && s[k] == '\n';
        assert(bare_char(s[k]));
    }
}

/// The words of a text that starts with a plain word and a blank.
proof fn lemma_first_word_text(first: Seq<char>, rest: Seq<char>)
    requires
        one_plain_word(first),
    ensures
        word_texts(lexed(first + seq![' '] + rest)) == seq![first] + word_texts(lexed(rest)),
{
    law_blank_separates(first, ' ', rest);
    let word = lexed(first)[0];
    assert(lexed(first).drop_last() =~= seq![word]);
    lemma_word_texts_add(seq![word], lexed(rest));
    assert(seq![word].drop_last() =~= Seq::empty());
    assert(word_texts(seq![word].drop_last()) =~= Seq::empty());
    assert(word_texts(seq![word]) =~= seq![first]);
}

/// What stands before the line break in a saved file, and holds the name.
pub open spec fn saved_header(name: Seq<char>, value: Seq<char>) -> Seq<char> {
    let wraps = match first_word(value) {
        Some(w) => w,
        None => name,
    };
    "function "@ + name + " --wraps="@ + wraps + " --description 'alias "@ + name + "="@ + value
        + seq!['\'']
}

proof fn lemma_white_from(s: Seq<char>, i: int)
    requires
        0 <= i <= s.len(),
    ensures
        i <= white_from(s, i) <= s.len(),
    decreases s.len() - i,
{
    if i < s.len() && !white(s[i]) {
        lemma_white_from(s, i + 1);
    }
}

proof fn lemma_saved_header(name: Seq<char>, value: Seq<char>)
    requires
        one_plain_word(name),
        !value.contains('\n'),
    ensures
        ({
            let h = saved_header(name, value);
            &&& h.len() > 0
            &&& h[0] == 'f'
            &&& h.last() == '\''
            &&& !h.contains('\n')
            &&& header_name(h) == Some(name)
        }),
{
    reveal_strlit("function ");
    reveal_strlit(" --wraps=");
    reveal_strlit(" --description 'alias ");
    reveal_strlit("=");
    let h = saved_header(name, value);
    let wraps = match first_word(value) {
        Some(w) => w,
        None => name,
    };
    let keyword = seq!['f', 'u', 'n', 'c', 't', 'i', 'o', 'n'];
    let tail = seq!['-', '-', 'w', 'r', 'a', 'p', 's', '='] + wraps + " --description 'alias "@
        + name + "="@ + value + seq!['\''];
    assert("function "@ =~= keyword + seq![' ']);
    assert(" --wraps="@ =~= seq![' '] + seq!['-', '-', 'w', 'r', 'a', 'p', 's', '=']);
    assert(h =~= keyword + seq![' '] + (name + seq![' '] + tail));
    assert(bare(keyword));
    lemma_bare_is_plain(keyword);
    lemma_first_word_text(keyword, name + seq![' '] + tail);
    lemma_first_word_text(name, tail);
    assert(word_texts(lexed(h))[1] == name);
    assert(h.take(9) =~= "function "@);
    assert(starts(h, "function "@));
    assert forall|k: int| 0 <= k < name.len() implies name[k] != '\n' by {
        assert(name.contains(name[k]));
    }
    lemma_solid(value, 0);
    lemma_white_from(value, solid_from(value, 0));
    assert forall|k: int| 0 <= k < value.len() implies value[k] != '\n' by {
        assert(value.contains(value[k]));
    }
    assert forall|k: int| 0 <= k < wraps.len() implies wraps[k] != '\n' by {
        if first_word(value) is Some {
            assert(wraps[k] == value[solid_from(value, 0) + k]);
        }
    }
    assert forall|k: int| 0 <= k < h.len() implies h[k] != '\n' by {}
}

/// Reading a saved alias back gives its name, and its value with `$argv` behind
/// it. This needs a name that is one plain word, and a value in one line that is
/// not a comment.
pub proof fn law_saved_alias_reads_back(name: Seq<char>, value: Seq<char>)
    requires
        one_plain_word(name),
        !value.contains('\n'),
        trimmed(value + " $argv"@)[0] != '#',
    ensures
        function_block(function_file(name, value)) == (Definition {
            alias: Some((name, trimmed(value + " $argv"@))),
            warnings: Seq::empty(),
        }),
{
    reveal_strlit("'\n    ");
    reveal_strlit(" $argv\nend\n");
    reveal_strlit(" $argv");
    reveal_strlit("end");
    let nl = seq!['\n'];
    let h = saved_header(name, value);
    let indent = seq![' ', ' ', ' ', ' '];
    let call = value + " $argv"@;
    let b = indent + call;
    let contents = function_file(name, value);
    assert(contents =~= h + nl + b + nl + "end"@ + nl);
    lemma_saved_header(name, value);
    assert forall|k: int| 0 <= k < b.len() implies b[k] != '\n' by {
        if 4 <= k < 4 + value.len() {
            assert(value.contains(value[k - 4]));
        }
    }
    lemma_three_lines(h, b, "end"@);
    let body = trimmed(call);
    lemma_trimmed_already(h);
    lemma_trimmed_already("end"@);
    lemma_trimmed_behind(indent, call);
    let lines = trimmed_lines(contents);
    assert(lines =~= seq![h, body, "end"@]);
    assert(!idle(lines[0]));
    assert(working_from(lines, 0) == 0);
    assert(body.last() == 'v');
    assert("end"@.last() == 'd');
    assert(lines[1] != "end"@);
    assert(end_from(lines, 2) == 2);
    assert(end_from(lines, 1) == 2);
    assert(lines.subrange(1, 2) =~= seq![body]);
    assert(seq![body].drop_last() =~= Seq::empty());
    assert(working(seq![body].drop_last()) =~= Seq::empty());
    assert(working(seq![body]) =~= seq![body]);
    assert(spaced(seq![body]) == body);
    assert(block_body(lines, 1, name).warnings =~= Seq::empty());
}

// ---------------------------------------------------------------------
// A saved alias runs as before
// ---------------------------------------------------------------------

proof fn lemma_argv_last(words: Seq<Seq<Part>>, w: Seq<Part>, i: int)
    requires
        0 <= i <= words.len(),
        argv_from(words, i) == words.len(),
        text_of(w) == "$argv"@,
    ensures
        argv_from(words.push(w), i) == words.len(),
    decreases words.len() - i,
{
    if i < words.len() {
        lemma_argv_last(words, w, i + 1);
    }
}

proof fn lemma_argv_within(words: Seq<Seq<Part>>, i: int)
    requires
        0 <= i <= words.len(),
    ensures
        i <= argv_from(words, i) <= words.len(),
    decreases words.len() - i,
{
    if i < words.len() && text_of(words[i]) != "$argv"@ {
        lemma_argv_within(words, i + 1);
    }
}

proof fn lemma_command_argv(cmd: Cmd, w: Seq<Part>, args: Seq<Seq<Part>>)
    requires
        !takes_args(cmd),
        text_of(w) == "$argv"@,
    ensures
        takes_args(extended(cmd, seq![w], Seq::empty())),
        spliced(extended(cmd, seq![w], Seq::empty()), args) == extended(cmd, args, Seq::empty()),
{
    let big = extended(cmd, seq![w], Seq::empty());
    let n = cmd.words.len() as int;
    lemma_argv_within(cmd.words, 0);
    lemma_argv_last(cmd.words, w, 0);
    assert(cmd.words + seq![w] =~= cmd.words.push(w));
    assert(big.words.take(n) + args + big.words.skip(n + 1) =~= cmd.words + args);
    assert(spliced(big, args) =~= extended(cmd, args, Seq::empty()));
}

proof fn lemma_taker_last(stages: Seq<Cmd>, big: Cmd, i: int)
    requires
        0 <= i < stages.len(),
        taker_from(stages, i) == stages.len(),
        takes_args(big),
    ensures
        taker_from(stages.update(stages.len() - 1, big), i) == stages.len() - 1,
        !takes_args(stages.last()),
    decreases stages.len() - i,
{
    if i + 1 < stages.len() {
        lemma_taker_last(stages, big, i + 1);
    }
}

/// Arguments take the place of a `$argv` that was added at the end.
proof fn lemma_splice_last(tree: Tree, w: Seq<Part>, args: Seq<Seq<Part>>)
    requires
        no_empty_pipeline(tree),
        tree_spliced(tree, args) is None,
        text_of(w) == "$argv"@,
    ensures
        tree_spliced(one_more(tree, word_item(w)), args) == Some(tree_extended(tree, args, Seq::empty())),
    decreases tree,
{
    match tree {
        Tree::Command(cmd) => {
            lemma_command_argv(cmd, w, args);
        },
        Tree::Pipeline(stages) => {
            let n = stages.len() - 1;
            lemma_stage_count(stages, 0);
            let big = extended(stages.last(), seq![w], Seq::empty());
            lemma_command_argv_if_none(stages, w, args);
            lemma_taker_last(stages, big, 0);
            assert(stages.update(n, big).update(n, spliced(big, args)) =~= stages.update(
                n,
                extended(stages.last(), args, Seq::empty()),
            ));
        },
        Tree::And(l, r) => lemma_splice_last(*r, w, args),
        Tree::Or(l, r) => lemma_splice_last(*r, w, args),
        Tree::Sequence(l, r) => lemma_splice_last(*r, w, args),
    }
}

proof fn lemma_stage_count(stages: Seq<Cmd>, i: int)
    requires
        0 <= i <= stages.len(),
    ensures
        i <= taker_from(stages, i) <= stages.len(),
        taker_from(stages, i) == stages.len() && i < stages.len() ==> !takes_args(stages.last()),
    decreases stages.len() - i,
{
    if i < stages.len() && !takes_args(stages[i]) {
        lemma_stage_count(stages, i + 1);
    }
}

proof fn lemma_command_argv_if_none(stages: Seq<Cmd>, w: Seq<Part>, args: Seq<Seq<Part>>)
    requires
        stages.len() > 0,
        taker_from(stages, 0) == stages.len(),
        text_of(w) == "$argv"@,
    ensures
        takes_args(extended(stages.last(), seq![w], Seq::empty())),
        spliced(extended(stages.last(), seq![w], Seq::empty()), args) == extended(
            stages.last(),
            args,
            Seq::empty(),
        ),
{
    lemma_stage_count(stages, 0);
    lemma_command_argv(stages.last(), w, args);
}

/// The word `$argv`.
spec fn argv_word() -> Seq<Part> {
    seq![Part { kind: RunKind::Unquoted, text: "$argv"@ }]
}

/// The tokens of a value with `$argv` behind it.
proof fn lemma_call_tokens(value: Seq<char>)
    requires
        quotes_closed(value, 0),
    ensures
        lexed(value + " $argv"@) == ended_with(lexed(value).drop_last(), word_item(argv_word())),
        lexed(value) == ended(lexed(value).drop_last()),
        text_of(argv_word()) == "$argv"@,
{
    reveal_strlit(" $argv");
    reveal_strlit("$argv");
    let argv = "$argv"@;
    assert(value + " $argv"@ =~= value + seq![' '] + argv);
    law_one_eof_at_the_end(value);
    law_bare_text_is_one_word(argv);
    law_blank_separates(value, ' ', argv);
    let ts = lexed(value).drop_last();
    assert(lexed(value) =~= ended(ts));
    assert(lexed(value + " $argv"@) =~= ended_with(ts, word_item(argv_word())));
    assert(argv_word().drop_last() =~= Seq::empty());
    assert(text_of(argv_word().drop_last()) + argv =~= argv);
}

/// A trimmed value with `$argv` behind it is trimmed.
proof fn lemma_call_trimmed(value: Seq<char>)
    requires
        value.len() > 0,
        trimmed(value) == value,
    ensures
        trimmed(value + " $argv"@) == value + " $argv"@,
{
    reveal_strlit(" $argv");
    let call = value + " $argv"@;
    lemma_solid(value, 0);
    lemma_solid_to(value, value.len() as int);
    assert(!white(value[0]));
    assert(call[0] == value[0]);
    assert(call.last() == 'v');
    lemma_trimmed_already(call);
}

/// An alias that was saved and read back runs exactly as before, whatever
/// arguments and redirections it is invoked with. This needs a value that closes
/// its quotes, ends in a word, and does not place its arguments itself.
pub proof fn law_saved_alias_runs_the_same(
    value: Seq<char>,
    tree: Tree,
    args: Seq<Seq<Part>>,
    redirects: Seq<Redir>,
)
    requires
        trimmed(value) == value,
        quotes_closed(value, 0),
        parsed(value) == Ok::<Option<Tree>, Seq<char>>(Some(tree)),
        lexed(value)[lexed(value).len() - 2] is Word,
        tree_spliced(tree, args) is None,
    ensures
        ({
            let read_back = parsed(trimmed(value + " $argv"@));
            &&& read_back is Ok
            &&& read_back->Ok_0 is Some
            &&& invocation_tree(read_back->Ok_0->0, args, redirects) == invocation_tree(
                tree,
                args,
                redirects,
            )
        }),
{
    let ts = lexed(value).drop_last();
    law_one_eof_at_the_end(value);
    lemma_call_tokens(value);
    if lexed(value).len() == 1 {
        assert(tok_at(lexed(value), 0) is Eof);
    }
    assert(ends_in_word(ts)) by {
        assert(ts.last() == lexed(value)[lexed(value).len() - 2]);
        assert forall|k: int| 0 <= k < ts.len() implies !(#[trigger] ts[k] is Eof) by {
            assert(ts[k] == lexed(value)[k]);
        }
    }
    assert(value.len() > 0) by {
        if value.len() == 0 {
            assert(scan(value, 0, Seq::empty()).0.len() == 0);
            assert(lexed(value).len() == 1);
        }
    }
    assert(is_item(word_item(argv_word())));
    lemma_tree_grows(ts, word_item(argv_word()), tree);
    lemma_call_trimmed(value);
    law_parse_groups_by_precedence(value, tree);
    lemma_splice_last(tree, argv_word(), args);
}

// ---------------------------------------------------------------------
// Function files
// ---------------------------------------------------------------------

/// The lines that count, those that are neither empty nor comments.
pub open spec fn counting(lines: Seq<Seq<char>>) -> Seq<Seq<char>> {
    lines.filter(|line: Seq<char>| says_something(line))
}

proof fn lemma_working_add(a: Seq<Seq<char>>, b: Seq<Seq<char>>)
    ensures
        working(a + b) == working(a) + working(b),
    decreases b.len(),
{
    if b.len() == 0 {
        assert(a + b =~= a);
        assert(working(a) + working(b) =~= working(a));
    } else {
        assert((a + b).drop_last() =~= a + b.drop_last());
        lemma_working_add(a, b.drop_last());
        assert(working(a + b) =~= working(a) + working(b));
    }
}

proof fn lemma_working_one(line: Seq<char>)
    ensures
        working(seq![line]) == (if idle(line) {
            Seq::empty()
        } else {
            seq![line]
        }),
{
    assert(seq![line].drop_last() =~= Seq::empty());
    assert(working(seq![line].drop_last()) =~= Seq::empty());
    assert(Seq::<Seq<char>>::empty().push(line) =~= seq![line]);
}

proof fn lemma_working_is(lines: Seq<Seq<char>>, i: int, p: int)
    requires
        0 <= i <= p <= lines.len(),
        forall|k: int| i <= k < p ==> idle(#[trigger] lines[k]),
        p < lines.len() ==> !idle(lines[p]),
    ensures
        working_from(lines, i) == p,
    decreases p - i,
{
    if i < p {
        assert(idle(lines[i]));
        lemma_working_is(lines, i + 1, p);
    }
}

proof fn lemma_end_is(lines: Seq<Seq<char>>, i: int, p: int)
    requires
        0 <= i <= p <= lines.len(),
        forall|k: int| i <= k < p ==> #[trigger] lines[k] != "end"@,
        p < lines.len() ==> lines[p] == "end"@,
    ensures
        end_from(lines, i) == p,
    decreases p - i,
{
    if i < p {
        assert(lines[i] != "end"@);
        lemma_end_is(lines, i + 1, p);
    }
}

/// The name in a header is the word behind `function`.
proof fn lemma_header_names(name: Seq<char>, more: Seq<char>)
    requires
        name.len() > 0,
        forall|k: int| 0 <= k < name.len() ==> ordinary(#[trigger] name[k]),
        more.len() > 0 ==> more[0] == ' ',
    ensures
        header_name("function "@ + name + more) == Some(name),
        !idle("function "@ + name + more),
{
    reveal_strlit("function ");
    let key = seq!['f', 'u', 'n', 'c', 't', 'i', 'o', 'n'];
    assert("function "@ =~= key + seq![' ']);
    assert forall|k: int| 0 <= k < key.len() implies bare_char(#[trigger] key[k]) by {}
    lemma_bare_is_plain(key);
    assert forall|k: int| 0 <= k < name.len() implies bare_char(#[trigger] name[k]) by {
        assert(ordinary(name[k]));
    }
    lemma_bare_is_plain(name);
    let header = "function "@ + name + more;
    assert(header.take(9) =~= "function "@);
    lemma_first_word_text(key, name + more);
    assert(header =~= key + seq![' '] + (name + more));
    if more.len() > 0 {
        let tail = more.skip(1);
        assert(more =~= seq![' '] + tail);
        lemma_first_word_text(name, tail);
        assert(name + more =~= name + seq![' '] + tail);
    } else {
        assert(name + more =~= name);
        law_bare_text_is_one_word(name);
        let word = lexed(name)[0];
        assert(lexed(name) =~= seq![word, Tok::Eof]);
        assert(lexed(name).drop_last() =~= seq![word]);
        assert(seq![word].drop_last() =~= Seq::empty());
        assert(word_texts(seq![word].drop_last()) =~= Seq::empty());
        assert(word_texts(seq![word]) =~= seq![name]);
        assert(word_texts(lexed(name)) =~= seq![name]);
    }
    assert(word_texts(lexed(header))[1] == name);
    assert(header[0] == 'f');
}

/// The warning about a function whose file has another name.
pub open spec fn misnamed_file(path: Seq<char>, name: Seq<char>, stem: Seq<char>) -> Seq<char> {
    "lush: functions: warning: "@ + path + " defines '"@ + name + "', but filename suggests '"@
        + stem + "'"@
}

/// The warning about a function without `end`.
pub open spec fn unended(name: Seq<char>) -> Seq<char> {
    "lush: functions: warning: function '"@ + name + "' has no matching 'end'"@
}

/// A function file with a block: lines that do not count, a header with a name, the
/// body, `end`, and whatever follows. It defines the alias of that name, whose value
/// is the lines of the body that count, joined with spaces. Only a name that the
/// filename does not say is warned of. An empty body defines nothing.
pub proof fn law_function_file_defines_its_block(
    stem: Seq<char>,
    path: Seq<char>,
    contents: Seq<char>,
    front: Seq<Seq<char>>,
    name: Seq<char>,
    more: Seq<char>,
    body: Seq<Seq<char>>,
    rest: Seq<Seq<char>>,
)
    requires
        trimmed_lines(contents) == front + seq!["function "@ + name + more] + body + seq!["end"@]
            + rest,
        forall|k: int| 0 <= k < front.len() ==> !says_something(#[trigger] front[k]),
        name.len() > 0,
        forall|k: int| 0 <= k < name.len() ==> ordinary(#[trigger] name[k]),
        more.len() > 0 ==> more[0] == ' ',
        forall|k: int| 0 <= k < body.len() ==> #[trigger] body[k] != "end"@,
    ensures
        ({
            let r = function_definition(stem, path, contents);
            &&& counting(body).len() > 0 ==> r.alias == Some((name, spaced(counting(body))))
                && r.warnings == (if name == stem {
                Seq::empty()
            } else {
                seq![misnamed_file(path, name, stem)]
            })
            &&& counting(body).len() == 0 ==> r.alias is None && r.warnings == seq![
                "lush: functions: warning: function '"@ + name + "' has an empty body"@,
            ]
            &&& function_block(contents).alias == r.alias
        }),
{
    let header = "function "@ + name + more;
    let lines = trimmed_lines(contents);
    let at = front.len() as int;
    let end = at + 1 + body.len();
    lemma_header_names(name, more);
    assert forall|k: int| 0 <= k < at implies idle(#[trigger] lines[k]) by {
        assert(lines[k] == front[k]);
    }
    assert(lines[at] == header);
    lemma_working_is(lines, 0, at);
    assert forall|k: int| at + 1 <= k < end implies #[trigger] lines[k] != "end"@ by {
        assert(lines[k] == body[k - at - 1]);
    }
    assert(lines[end] == "end"@);
    lemma_end_is(lines, at + 1, end);
    assert(lines.subrange(at + 1, end) =~= body);
    law_blank_lines_and_comments_do_not_count(body);
    assert(function_block(contents) == block_body(lines, at + 1, name));
}

/// A block without `end` goes on to the end of the file, and is warned of. If it is
/// empty too, the file is read as plain lines.
pub proof fn law_block_without_end_goes_on(
    stem: Seq<char>,
    path: Seq<char>,
    contents: Seq<char>,
    front: Seq<Seq<char>>,
    name: Seq<char>,
    more: Seq<char>,
    body: Seq<Seq<char>>,
)
    requires
        trimmed_lines(contents) == front + seq!["function "@ + name + more] + body,
        forall|k: int| 0 <= k < front.len() ==> !says_something(#[trigger] front[k]),
        name.len() > 0,
        forall|k: int| 0 <= k < name.len() ==> ordinary(#[trigger] name[k]),
        more.len() > 0 ==> more[0] == ' ',
        forall|k: int| 0 <= k < body.len() ==> #[trigger] body[k] != "end"@,
    ensures
        ({
            let r = function_definition(stem, path, contents);
            &&& counting(body).len() > 0 ==> r.alias == Some((name, spaced(counting(body))))
                && r.warnings == seq![unended(name)] + (if name == stem {
                Seq::empty()
            } else {
                seq![misnamed_file(path, name, stem)]
            })
            &&& counting(body).len() == 0 ==> r.alias == Some((stem, "function "@ + name + more))
                && r.warnings == seq![
                unended(name),
                "lush: functions: warning: function '"@ + name + "' has an empty body"@,
            ]
        }),
{
    let header = "function "@ + name + more;
    let lines = trimmed_lines(contents);
    let at = front.len() as int;
    let end = lines.len() as int;
    lemma_header_names(name, more);
    assert forall|k: int| 0 <= k < at implies idle(#[trigger] lines[k]) by {
        assert(lines[k] == front[k]);
    }
    assert(lines[at] == header);
    lemma_working_is(lines, 0, at);
    assert forall|k: int| at + 1 <= k < end implies #[trigger] lines[k] != "end"@ by {
        assert(lines[k] == body[k - at - 1]);
    }
    lemma_end_is(lines, at + 1, end);
    assert(lines.subrange(at + 1, end) =~= body);
    law_blank_lines_and_comments_do_not_count(body);
    assert(function_block(contents) == block_body(lines, at + 1, name));
    if counting(body).len() == 0 {
        lemma_working_add(front + seq![header], body);
        lemma_working_add(front, seq![header]);
        lemma_working_one(header);
        lemma_idle_lines(front);
        assert(working(lines) =~= seq![header]);
        assert(header.len() > 0) by {
            reveal_strlit("function ");
        }
    }
}

proof fn lemma_idle_lines(lines: Seq<Seq<char>>)
    requires
        forall|k: int| 0 <= k < lines.len() ==> idle(#[trigger] lines[k]),
    ensures
        working(lines) == Seq::<Seq<char>>::empty(),
    decreases lines.len(),
{
    if lines.len() > 0 {
        let less = lines.drop_last();
        assert(idle(lines[lines.len() - 1]));
        assert forall|k: int| 0 <= k < less.len() implies idle(#[trigger] less[k]) by {
            assert(less[k] == lines[k]);
        }
        lemma_idle_lines(less);
    }
}

proof fn lemma_spaced_some(items: Seq<Seq<char>>)
    requires
        items.len() > 0,
        items[0].len() > 0,
    ensures
        spaced(items).len() > 0,
    decreases items.len(),
{
    if items.len() > 1 {
        let less = items.drop_last();
        assert(less[0] == items[0]);
        lemma_spaced_some(less);
    }
}

proof fn lemma_first_counting(lines: Seq<Seq<char>>, at: int)
    requires
        0 <= at < lines.len(),
        at == working_from(lines, 0),
    ensures
        working(lines).len() > 0,
        working(lines)[0] == lines[at],
        !idle(lines[at]),
{
    lemma_working_from(lines, 0);
    let front = lines.take(at);
    let rest = lines.skip(at + 1);
    assert(lines =~= front + seq![lines[at]] + rest);
    assert forall|k: int| 0 <= k < front.len() implies idle(#[trigger] front[k]) by {
        assert(front[k] == lines[k]);
    }
    lemma_idle_lines(front);
    lemma_working_one(lines[at]);
    lemma_working_add(front + seq![lines[at]], rest);
    lemma_working_add(front, seq![lines[at]]);
    assert(working(lines) =~= seq![lines[at]] + working(rest));
}

proof fn lemma_working_from(lines: Seq<Seq<char>>, i: int)
    requires
        0 <= i <= lines.len(),
    ensures
        i <= working_from(lines, i) <= lines.len(),
        working_from(lines, i) < lines.len() ==> !idle(lines[working_from(lines, i)]),
        forall|k: int| i <= k < working_from(lines, i) ==> idle(#[trigger] lines[k]),
    decreases lines.len() - i,
{
    if i < lines.len() && idle(lines[i]) {
        lemma_working_from(lines, i + 1);
    }
}

/// A function file whose first line that counts is not `function`, alone or with
/// anything behind a space, defines the alias that its filename says: all its lines
/// that count, joined with spaces. A file without any such line defines nothing, and
/// is reported.
pub proof fn law_plain_function_file_defines_its_lines(
    stem: Seq<char>,
    path: Seq<char>,
    contents: Seq<char>,
)
    ensures
        ({
            let kept = counting(trimmed_lines(contents));
            let r = function_definition(stem, path, contents);
            &&& kept.len() > 0 && kept[0] != "function"@ && (forall|rest: Seq<char>|
                kept[0] != #[trigger] ("function "@ + rest)) ==> r.alias == Some(
                (stem, spaced(kept)),
            ) && r.warnings.len() == 0
            &&& kept.len() == 0 ==> r.alias is None && r.warnings == seq![
                "lush: functions: "@ + path + ": file has no content"@,
            ]
        }),
{
    let lines = trimmed_lines(contents);
    let kept = counting(lines);
    let at = working_from(lines, 0);
    law_blank_lines_and_comments_do_not_count(lines);
    lemma_working_from(lines, 0);
    if at < lines.len() {
        lemma_first_counting(lines, at);
        lemma_spaced_some(kept);
        law_prefixes(lines[at], "function "@);
    } else {
        lemma_idle_lines(lines);
    }
}

/// The name in a header is the text of its second word, however that is quoted; a
/// header of one word has none, and a line that does not start with `function` is no
/// header.
pub proof fn law_second_word_is_the_name(line: Seq<char>, a: Seq<Part>, b: Seq<Part>, more: Seq<Tok>)
    ensures
        (exists|rest: Seq<char>| line == #[trigger] ("function "@ + rest)) && lexed(line) == seq![
            Tok::Word(a),
            Tok::Word(b),
        ] + more ==> header_name(line) == Some(text_of(b)),
        header_name("function"@) is None,
        line != "function"@ && (forall|rest: Seq<char>|
            line != #[trigger] ("function "@ + rest)) ==> header_name(line) is None,
{
    law_prefixes(line, "function "@);
    let both = seq![Tok::Word(a), Tok::Word(b)];
    lemma_word_texts_add(both, more);
    assert(both.drop_last() =~= seq![Tok::Word(a)]);
    assert(both.drop_last().drop_last() =~= Seq::empty());
    assert(word_texts(both.drop_last().drop_last()) =~= Seq::empty());
    assert(word_texts(both.drop_last()) =~= seq![text_of(a)]);
    assert(word_texts(both) =~= seq![text_of(a), text_of(b)]);
    let key = seq!['f', 'u', 'n', 'c', 't', 'i', 'o', 'n'];
    reveal_strlit("function");
    assert("function"@ =~= key);
    assert forall|k: int| 0 <= k < key.len() implies bare_char(#[trigger] key[k]) by {}
    law_bare_text_is_one_word(key);
    let word = lexed(key)[0];
    assert(lexed(key) =~= seq![word, Tok::Eof]);
    assert(lexed(key).drop_last() =~= seq![word]);
    assert(seq![word].drop_last() =~= Seq::empty());
    assert(word_texts(seq![word].drop_last()) =~= Seq::empty());
    assert(word_texts(seq![word]).len() == 1);
    assert(word_texts(lexed(key)).len() == 1);
}

} // verus!
