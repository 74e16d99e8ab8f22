//! From the words of a command to its final arguments.

use vstd::prelude::*;

use crate::expand::{
    expansion, expansion_flags, is_name, law_expansion_is_determined, law_reference_expands,
};
use crate::glob::{
    glob_expand_word, globs_to, has_wildcard, law_glob_is_determined, lists_any, pattern, shows,
    Entry,
};
use crate::shell::Shell;
use crate::text::texts;
use crate::word::{words_view, Part, RunKind, Word};

verus! {

/// Whether no part of the word was quoted.
pub open spec fn unquoted(word: Seq<Part>) -> bool {
    forall|k: int| 0 <= k < word.len() ==> (#[trigger] word[k]).kind == RunKind::Unquoted
}

/// The arguments that a word becomes, given the paths that its pattern expands
/// to. A pattern that matches nothing stays literal, and a word that was not
/// quoted at all and comes out empty vanishes.
pub open spec fn args_given(
    env: Map<Seq<char>, Seq<char>>,
    word: Seq<Part>,
    paths: Seq<Seq<char>>,
) -> Seq<Seq<char>> {
    if paths.len() > 0 {
        paths
    } else if expansion(env, word).len() == 0 && unquoted(word) {
        Seq::empty()
    } else {
        seq![expansion(env, word)]
    }
}

/// Whether `args` is what a word can become.
pub open spec fn word_becomes<L: Fn(&str) -> Vec<(String, bool)>>(
    list: L,
    env: Map<Seq<char>, Seq<char>>,
    word: Seq<Part>,
    args: Seq<Seq<char>>,
) -> bool {
    exists|paths: Seq<Seq<char>>| #[trigger]
        globs_to(list, pattern(expansion(env, word), expansion_flags(env, word)), paths) && args
            == args_given(env, word, paths)
}

/// All rows, one after the other.
pub open spec fn flat(rows: Seq<Seq<Seq<char>>>) -> Seq<Seq<char>>
    decreases rows.len(),
{
    if rows.len() == 0 {
        Seq::empty()
    } else {
        flat(rows.drop_last()) + rows.last()
    }
}

/// Whether `rows` is what the words can become, word by word.
pub open spec fn each_becomes<L: Fn(&str) -> Vec<(String, bool)>>(
    list: L,
    env: Map<Seq<char>, Seq<char>>,
    words: Seq<Seq<Part>>,
    rows: Seq<Seq<Seq<char>>>,
) -> bool {
    &&& rows.len() == words.len()
    &&& forall|k: int| 0 <= k < words.len() ==> word_becomes(list, env, words[k], #[trigger] rows[k])
}

/// Whether `args` is what the words of a command can become.
pub open spec fn words_become<L: Fn(&str) -> Vec<(String, bool)>>(
    list: L,
    env: Map<Seq<char>, Seq<char>>,
    words: Seq<Seq<Part>>,
    args: Seq<Seq<char>>,
) -> bool {
    exists|rows: Seq<Seq<Seq<char>>>| #[trigger]
        each_becomes(list, env, words, rows) && args == flat(rows)
}

impl Shell {
    /// The paths that the pattern of a word expands to.
    fn glob<L: Fn(&str) -> Vec<(String, bool)>>(&self, word: &Word, list: &L) -> (r: Vec<String>)
        requires
            lists_any(*list),
        ensures
            globs_to(
                *list,
                pattern(expansion(self.scope(), word@), expansion_flags(self.scope(), word@)),
                texts(r@),
            ),
    {
        let lookup = |name: &str| -> (r: Option<String>)
            ensures
                r is Some == self.scope().dom().contains(name@),
                r is Some ==> r->0@ == self.scope()[name@],
            { self.lookup_variable(name) };
        let r: Vec<String> = glob_expand_word(word, &lookup, list);
        proof {
            law_expansion_is_determined(lookup, self.scope(), word@);
        }
        r
    }

    /// Builds the final arguments of a command: per word, its variables are
    /// replaced and the result is matched against the directory tree. Redirect
    /// targets do not go through here and are never matched.
    pub fn expand_command_words<L: Fn(&str) -> Vec<(String, bool)>>(
        &self,
        words: &[Word],
        list: &L,
    ) -> (r: Vec<String>)
        requires
            lists_any(*list),
        ensures
            words_become(*list, self.scope(), words_view(words@), texts(r@)),
    {
        let mut out: Vec<String> = Vec::new();
        let ghost mut rows: Seq<Seq<Seq<char>>> = Seq::empty();
        let ghost env = self.scope();
        let ghost all = words_view(words@);
        let mut i: usize = 0;
        assert(texts(out@) =~= flat(rows));
        while i < words.len()
            invariant
                i <= words@.len(),
                env == self.scope(),
                all == words_view(words@),
                lists_any(*list),
                each_becomes(*list, env, all.take(i as int), rows),
                texts(out@) == flat(rows),
            decreases words@.len() - i,
        {
            let ghost before = texts(out@);
            let ghost word = all[i as int];
            let mut paths: Vec<String> = self.glob(&words[i], list);
            let ghost found = texts(paths@);
            if paths.len() > 0 {
                out.append(&mut paths);
                assert(texts(out@) =~= before + found);
            } else {
                let text: String = self.expand(&words[i]);
                let drop: bool = text.as_str().is_empty() && written_bare(&words[i]);
                if !drop {
                    out.push(text);
                    assert(texts(out@) =~= before + seq![text@]);
                } else {
                    assert(texts(out@) =~= before + Seq::<Seq<char>>::empty());
                }
            }
            proof {
                let row = args_given(env, word, found);
                let more = rows.push(row);
                assert(texts(out@) == before + row);
                assert(more.drop_last() =~= rows);
                assert(word_becomes(*list, env, word, row));
                assert forall|k: int| 0 <= k < i + 1 implies word_becomes(
                    *list,
                    env,
                    all.take(i + 1)[k],
                    #[trigger] more[k],
                ) by {
                    if k < i {
                        assert(more[k] == rows[k]);
                        assert(all.take(i as int)[k] == all.take(i + 1)[k]);
                    }
                }
                rows = more;
            }
            i = i + 1;
        }
        assert(all.take(i as int) =~= all);
        out
    }
}

/// Whether no part of the word was quoted.
pub fn written_bare(word: &Word) -> (r: bool)
    ensures
        r == unquoted(word@),
{
    let mut i: usize = 0;
    while i < word.parts.len()
        invariant
            i <= word.parts@.len(),
            forall|k: int| 0 <= k < i ==> (#[trigger] word@[k]).kind == RunKind::Unquoted,
        decreases word.parts@.len() - i,
    {
        if !word.parts[i].is_expandable() {
            assert(word@[i as int].kind != RunKind::Unquoted);
            return false;
        }
        i = i + 1;
    }
    true
}

// ---------------------------------------------------------------------
// Laws
// ---------------------------------------------------------------------

/// A word that holds no wildcard is one argument, its expansion, unless it was
/// not quoted at all and comes out empty: then it vanishes.
pub proof fn law_plain_words_are_one_argument<L: Fn(&str) -> Vec<(String, bool)>>(
    list: L,
    env: Map<Seq<char>, Seq<char>>,
    word: Seq<Part>,
    args: Seq<Seq<char>>,
)
    requires
        !has_wildcard(pattern(expansion(env, word), expansion_flags(env, word))),
        word_becomes(list, env, word, args),
    ensures
        args == (if expansion(env, word).len() == 0 && unquoted(word) {
            Seq::empty()
        } else {
            seq![expansion(env, word)]
        }),
{
}

/// An unquoted variable that is not set leaves no argument.
pub proof fn law_unset_variable_vanishes<L: Fn(&str) -> Vec<(String, bool)>>(
    list: L,
    env: Map<Seq<char>, Seq<char>>,
    name: Seq<char>,
    args: Seq<Seq<char>>,
)
    requires
        is_name(name),
        !env.dom().contains(name),
        word_becomes(
            list,
            env,
            seq![Part { kind: RunKind::Unquoted, text: seq!['$'] + name }],
            args,
        ),
    ensures
        args.len() == 0,
{
    let word = seq![Part { kind: RunKind::Unquoted, text: seq!['$'] + name }];
    law_reference_expands(env, name, RunKind::Unquoted);
    law_plain_words_are_one_argument(list, env, word, args);
}

/// A word with quotes in it always leaves an argument, an empty one included.
pub proof fn law_quoted_words_stay<L: Fn(&str) -> Vec<(String, bool)>>(
    list: L,
    env: Map<Seq<char>, Seq<char>>,
    word: Seq<Part>,
    args: Seq<Seq<char>>,
)
    requires
        !unquoted(word),
        word_becomes(list, env, word, args),
    ensures
        args.len() > 0,
{
}

/// A pattern that matches nothing is handed on as it is written.
pub proof fn law_unmatched_pattern_stays_literal(
    env: Map<Seq<char>, Seq<char>>,
    word: Seq<Part>,
)
    requires
        expansion(env, word).len() > 0,
    ensures
        args_given(env, word, Seq::empty()) == seq![expansion(env, word)],
{
}

/// Whether a word stands for one argument by itself: its expansion holds no `*`,
/// `?` or `[` that came from outside quotes, and it is not empty unless something
/// in the word was quoted.
pub open spec fn stands_for_itself(env: Map<Seq<char>, Seq<char>>, word: Seq<Part>) -> bool {
    let text = expansion(env, word);
    &&& forall|k: int|
        0 <= k < text.len() ==> expansion_flags(env, word)[k] || (#[trigger] text[k] != '*'
            && text[k] != '?' && text[k] != '[')
    &&& text.len() > 0 || exists|k: int|
        0 <= k < word.len() && (#[trigger] word[k]).kind != RunKind::Unquoted
}

proof fn lemma_one_argument<L: Fn(&str) -> Vec<(String, bool)>>(
    list: L,
    env: Map<Seq<char>, Seq<char>>,
    word: Seq<Part>,
    args: Seq<Seq<char>>,
)
    requires
        stands_for_itself(env, word),
        word_becomes(list, env, word, args),
    ensures
        args == seq![expansion(env, word)],
{
    let text = expansion(env, word);
    let pat = pattern(text, expansion_flags(env, word));
    if has_wildcard(pat) {
        let k = choose|k: int|
            0 <= k < pat.len() && !(#[trigger] pat[k]).1 && (pat[k].0 == '*' || pat[k].0 == '?'
                || pat[k].0 == '[');
        assert(pat[k] == (text[k], expansion_flags(env, word)[k]));
    }
    law_plain_words_are_one_argument(list, env, word, args);
}

/// Words that stand for themselves become one argument each, their expansions, in
/// order.
pub proof fn law_plain_words_become_their_expansions<L: Fn(&str) -> Vec<(String, bool)>>(
    list: L,
    env: Map<Seq<char>, Seq<char>>,
    words: Seq<Seq<Part>>,
    args: Seq<Seq<char>>,
)
    requires
        words_become(list, env, words, args),
        forall|k: int| 0 <= k < words.len() ==> stands_for_itself(env, #[trigger] words[k]),
    ensures
        args == words.map_values(|w: Seq<Part>| expansion(env, w)),
{
    let rows = choose|rows: Seq<Seq<Seq<char>>>| #[trigger]
        each_becomes(list, env, words, rows) && args == flat(rows);
    lemma_rows_of_one(list, env, words, rows);
}

proof fn lemma_rows_of_one<L: Fn(&str) -> Vec<(String, bool)>>(
    list: L,
    env: Map<Seq<char>, Seq<char>>,
    words: Seq<Seq<Part>>,
    rows: Seq<Seq<Seq<char>>>,
)
    requires
        each_becomes(list, env, words, rows),
        forall|k: int| 0 <= k < words.len() ==> stands_for_itself(env, #[trigger] words[k]),
    ensures
        flat(rows) == words.map_values(|w: Seq<Part>| expansion(env, w)),
    decreases words.len(),
{
    let goal = words.map_values(|w: Seq<Part>| expansion(env, w));
    if words.len() == 0 {
        assert(flat(rows) =~= goal);
    } else {
        let less = words.drop_last();
        let few = rows.drop_last();
        let n = words.len() - 1;
        assert forall|k: int| 0 <= k < less.len() implies word_becomes(
            list,
            env,
            less[k],
            #[trigger] few[k],
        ) by {
            assert(few[k] == rows[k]);
        }
        assert forall|k: int| 0 <= k < less.len() implies stands_for_itself(
            env,
            #[trigger] less[k],
        ) by {
            assert(less[k] == words[k]);
        }
        lemma_rows_of_one(list, env, less, few);
        assert(word_becomes(list, env, words[n], rows[n]));
        lemma_one_argument(list, env, words[n], rows[n]);
        assert(flat(rows) =~= goal);
    }
}

/// Whether `x` and `y` are what two rows of words become.
pub open spec fn both_become<L: Fn(&str) -> Vec<(String, bool)>>(
    list: L,
    env: Map<Seq<char>, Seq<char>>,
    a: Seq<Seq<Part>>,
    b: Seq<Seq<Part>>,
    x: Seq<Seq<char>>,
    y: Seq<Seq<char>>,
) -> bool {
    words_become(list, env, a, x) && words_become(list, env, b, y)
}

proof fn lemma_flat_add(a: Seq<Seq<Seq<char>>>, b: Seq<Seq<Seq<char>>>)
    ensures
        flat(a + b) == flat(a) + flat(b),
    decreases b.len(),
{
    if b.len() == 0 {
        assert(a + b =~= a);
        assert(flat(a) + flat(b) =~= flat(a));
    } else {
        assert((a + b).drop_last() =~= a + b.drop_last());
        lemma_flat_add(a, b.drop_last());
        assert(flat(a + b) =~= flat(a) + flat(b));
    }
}

/// What words become, they become one after the other: the arguments of two rows
/// of words are those of the first and then those of the second.
pub proof fn law_words_become_arguments_in_order<L: Fn(&str) -> Vec<(String, bool)>>(
    list: L,
    env: Map<Seq<char>, Seq<char>>,
    a: Seq<Seq<Part>>,
    b: Seq<Seq<Part>>,
    args: Seq<Seq<char>>,
)
    ensures
        words_become(list, env, a + b, args) <==> exists|x: Seq<Seq<char>>, y: Seq<Seq<char>>|
            #[trigger] both_become(list, env, a, b, x, y) && args == x + y,
{
    if words_become(list, env, a + b, args) {
        let rows = choose|rows: Seq<Seq<Seq<char>>>| #[trigger]
            each_becomes(list, env, a + b, rows) && args == flat(rows);
        let n = a.len() as int;
        let ra = rows.take(n);
        let rb = rows.skip(n);
        assert forall|k: int| 0 <= k < a.len() implies word_becomes(
            list,
            env,
            a[k],
            #[trigger] ra[k],
        ) by {
            assert(ra[k] == rows[k]);
            assert((a + b)[k] == a[k]);
        }
        assert forall|k: int| 0 <= k < b.len() implies word_becomes(
            list,
            env,
            b[k],
            #[trigger] rb[k],
        ) by {
            assert(rb[k] == rows[n + k]);
            assert((a + b)[n + k] == b[k]);
        }
        assert(each_becomes(list, env, a, ra));
        assert(each_becomes(list, env, b, rb));
        assert(rows =~= ra + rb);
        lemma_flat_add(ra, rb);
        assert(both_become(list, env, a, b, flat(ra), flat(rb)));
    }
    if exists|x: Seq<Seq<char>>, y: Seq<Seq<char>>| #[trigger]
        both_become(list, env, a, b, x, y) && args == x + y {
        let (x, y) = choose|x: Seq<Seq<char>>, y: Seq<Seq<char>>| #[trigger]
            both_become(list, env, a, b, x, y) && args == x + y;
        let ra = choose|rows: Seq<Seq<Seq<char>>>| #[trigger]
            each_becomes(list, env, a, rows) && x == flat(rows);
        let rb = choose|rows: Seq<Seq<Seq<char>>>| #[trigger]
            each_becomes(list, env, b, rows) && y == flat(rows);
        let rows = ra + rb;
        lemma_flat_add(ra, rb);
        assert forall|k: int| 0 <= k < rows.len() implies word_becomes(
            list,
            env,
            (a + b)[k],
            #[trigger] rows[k],
        ) by {
            if k < a.len() {
                assert(rows[k] == ra[k]);
            } else {
                assert(rows[k] == rb[k - a.len()]);
            }
        }
        assert(each_becomes(list, env, a + b, rows));
    }
}

/// An unquoted word that comes out empty becomes no argument.
pub proof fn law_empty_words_vanish<L: Fn(&str) -> Vec<(String, bool)>>(
    list: L,
    env: Map<Seq<char>, Seq<char>>,
    word: Seq<Part>,
    args: Seq<Seq<char>>,
)
    requires
        word_becomes(list, env, word, args),
        expansion(env, word).len() == 0,
        forall|k: int| 0 <= k < word.len() ==> (#[trigger] word[k]).kind == RunKind::Unquoted,
    ensures
        args.len() == 0,
{
    let pat = pattern(expansion(env, word), expansion_flags(env, word));
    assert(!has_wildcard(pat));
    law_plain_words_are_one_argument(list, env, word, args);
}

/// A word whose expansion holds an unquoted `*`, `?` or `[` becomes the paths that
/// its pattern finds, in order; if it finds none, it stays as it expands.
pub proof fn law_patterns_become_paths<L: Fn(&str) -> Vec<(String, bool)>>(
    list: L,
    tree: spec_fn(Seq<char>) -> Seq<Entry>,
    env: Map<Seq<char>, Seq<char>>,
    word: Seq<Part>,
    args: Seq<Seq<char>>,
    paths: Seq<Seq<char>>,
    k: int,
)
    requires
        shows(list, tree),
        word_becomes(list, env, word, args),
        0 <= k < expansion(env, word).len(),
        !expansion_flags(env, word)[k],
        expansion(env, word)[k] == '*' || expansion(env, word)[k] == '?' || expansion(env, word)[k]
            == '[',
        globs_to(list, pattern(expansion(env, word), expansion_flags(env, word)), paths),
    ensures
        args == (if paths.len() > 0 {
            paths
        } else {
            seq![expansion(env, word)]
        }),
{
    let pat = pattern(expansion(env, word), expansion_flags(env, word));
    let other = choose|other: Seq<Seq<char>>| #[trigger]
        globs_to(list, pat, other) && args == args_given(env, word, other);
    law_glob_is_determined(list, tree, pat, paths, other);
}

/// The pattern of a text has its characters, each with whether it was quoted.
pub proof fn law_pattern_is_the_text(text: Seq<char>, quoted: Seq<bool>)
    requires
        text.len() == quoted.len(),
    ensures
        pattern(text, quoted).map_values(|c: (char, bool)| c.0) == text,
        pattern(text, quoted).map_values(|c: (char, bool)| c.1) == quoted,
{
    assert(pattern(text, quoted).map_values(|c: (char, bool)| c.0) =~= text);
    assert(pattern(text, quoted).map_values(|c: (char, bool)| c.1) =~= quoted);
}

} // verus!
