//! Assignments: the standalone `NAME=value` form, a single word with nothing
//! else on the line.

use vstd::prelude::*;

use crate::expand::{
    expansion, is_name, is_var_char, is_var_start, law_names_are_letters_digits_underscores,
    law_plain_word_is_unchanged, law_words_expand_part_by_part, name_char, plain_name,
};
use crate::text::{find_from, index_from, lemma_index_from, lemma_index_from_is, slice_text, to_chars};
use crate::word::{
    law_text_ignores_quotes, lemma_parts_push, parts_view, text_of, words_view, Part, RunKind, Word,
    WordPart,
};

verus! {

/// The value that follows the `=` at position `eq` of the first part of `word`:
/// the rest of that part, where there is any, and the other parts as they are.
pub open spec fn value_after(word: Seq<Part>, eq: int) -> Seq<Part> {
    let rest = word[0].text.skip(eq + 1);
    if rest.len() > 0 {
        seq![Part { kind: RunKind::Unquoted, text: rest }] + word.skip(1)
    } else {
        word.skip(1)
    }
}

/// The name and the unexpanded value that `words` assign, if they are an
/// assignment. Quoting the name makes it none.
pub open spec fn assignment(words: Seq<Seq<Part>>) -> Option<(Seq<char>, Seq<Part>)> {
    if words.len() != 1 || words[0].len() == 0 || words[0][0].kind != RunKind::Unquoted {
        None
    } else {
        let text = words[0][0].text;
        let eq = index_from(text, '=', 0);
        if eq < text.len() && is_name(text.take(eq)) {
            Some((text.take(eq), value_after(words[0], eq)))
        } else {
            None
        }
    }
}

/// Whether `name` starts with a letter or underscore, followed by letters,
/// digits or underscores only.
pub fn is_valid_var_name(name: &str) -> (r: bool)
    ensures
        r == is_name(name@),
{
    let chars: Vec<char> = to_chars(name);
    if chars.len() == 0 || !is_var_start(Some(chars[0])) {
        return false;
    }
    let mut i: usize = 0;
    while i < chars.len()
        invariant
            i <= chars@.len(),
            chars@ == name@,
            forall|k: int| 0 <= k < i ==> name_char(#[trigger] name@[k]),
        decreases chars@.len() - i,
    {
        if !is_var_char(chars[i]) {
            assert(!name_char(name@[i as int]));
            return false;
        }
        i = i + 1;
    }
    true
}

/// Detects whether a command is a shell-variable assignment rather than
/// something to execute: the name, and the value as an unexpanded word that
/// keeps how each part was quoted.
pub fn parse_assignment(words: &[Word]) -> (r: Option<(String, Word)>)
    ensures
        match r {
            Some((name, value)) => assignment(words_view(words@)) == Some((name@, value@)),
            None => assignment(words_view(words@)) is None,
        },
{
    if words.len() != 1 {
        return None;
    }
    let ghost model = words_view(words@);
    assert(model[0] == words@[0]@);
    let parts: &Vec<WordPart> = &words[0].parts;
    if parts.len() == 0 {
        return None;
    }
    assert(model[0][0] == parts@[0]@);
    if !parts[0].is_expandable() {
        return None;
    }
    let text: Vec<char> = to_chars(parts[0].as_str());
    let eq: usize = find_from(&text, '=', 0);
    if eq >= text.len() {
        return None;
    }
    let name: String = slice_text(&text, 0, eq);
    assert(name@ =~= text@.take(eq as int));
    if !is_valid_var_name(&name) {
        return None;
    }
    let mut value: Vec<WordPart> = Vec::new();
    if eq + 1 < text.len() {
        let rest: String = slice_text(&text, eq + 1, text.len());
        assert(rest@ =~= text@.skip(eq + 1));
        value.push(WordPart::Expandable(rest));
    }
    let ghost head = parts_view(value@);
    let ghost tail = model[0];
    let mut i: usize = 1;
    assert(head + tail.subrange(1, 1) =~= head);
    while i < parts.len()
        invariant
            1 <= i <= parts@.len(),
            tail == parts_view(parts@),
            parts_view(value@) == head + tail.subrange(1, i as int),
        decreases parts@.len() - i,
    {
        broadcast use lemma_parts_push;

        let ghost done = parts_view(value@);
        value.push(parts[i].clone());
        assert(parts_view(value@) == done.push(tail[i as int]));
        i = i + 1;
        assert(parts_view(value@) =~= head + tail.subrange(1, i as int));
    }
    assert(tail.subrange(1, i as int) =~= tail.skip(1));
    assert(head + tail.skip(1) =~= value_after(model[0], eq as int));
    Some((name, Word { parts: value }))
}

/// An assigned name, the `=` and the text of the value make up the text of the
/// word.
pub proof fn law_assignment_splits_the_word(words: Seq<Seq<Part>>)
    requires
        assignment(words) is Some,
    ensures
        text_of(words[0]) == (assignment(words)->0).0 + seq!['='] + text_of(
            (assignment(words)->0).1,
        ),
{
    let word = words[0];
    let text = word[0].text;
    let eq = index_from(text, '=', 0);
    lemma_index_from(text, '=', 0);
    let rest = text.skip(eq + 1);
    assert(word =~= seq![word[0]] + word.skip(1));
    lemma_text_first(word[0], word.skip(1));
    assert(text =~= text.take(eq) + seq!['='] + rest);
    if rest.len() > 0 {
        lemma_text_first(Part { kind: RunKind::Unquoted, text: rest }, word.skip(1));
        assert(text.take(eq) + seq!['='] + (rest + text_of(word.skip(1))) =~= text + text_of(
            word.skip(1),
        ));
    } else {
        assert(rest =~= Seq::empty());
        assert(text =~= text.take(eq) + seq!['=']);
    }
}

proof fn lemma_text_first(part: Part, rest: Seq<Part>)
    ensures
        text_of(seq![part] + rest) == part.text + text_of(rest),
    decreases rest.len(),
{
    let all = seq![part] + rest;
    if rest.len() == 0 {
        assert(all.drop_last() =~= Seq::empty());
        assert(text_of(all.drop_last()) + all.last().text =~= part.text);
        assert(part.text + text_of(rest) =~= part.text);
    } else {
        assert(all.drop_last() =~= seq![part] + rest.drop_last());
        lemma_text_first(part, rest.drop_last());
        assert(text_of(all) =~= part.text + text_of(rest));
    }
}

/// A word whose unquoted start reads `NAME=` assigns to `NAME`, whatever
/// follows.
pub proof fn law_name_equals_is_an_assignment(
    name: Seq<char>,
    text: Seq<char>,
    more: Seq<Part>,
)
    requires
        is_name(name),
    ensures
        ({
            let first = Part { kind: RunKind::Unquoted, text: name + seq!['='] + text };
            let r = assignment(seq![seq![first] + more]);
            &&& r is Some
            &&& (r->0).0 == name
            &&& text_of((r->0).1) == text + text_of(more)
        }),
{
    let first = Part { kind: RunKind::Unquoted, text: name + seq!['='] + text };
    let word = seq![first] + more;
    let all = first.text;
    let n = name.len() as int;
    assert forall|k: int| 0 <= k < n implies all[k] != '=' by {
        assert(name_char(name[k]));
    }
    lemma_index_from_is(all, '=', 0, n);
    assert(all.take(n) =~= name);
    assert(all.skip(n + 1) =~= text);
    assert(word.skip(1) =~= more);
    assert(word[0] == first);
    assert(seq![word][0] == word);
    if text.len() > 0 {
        lemma_text_first(Part { kind: RunKind::Unquoted, text }, more);
    } else {
        assert(text + text_of(more) =~= text_of(more));
    }
}

/// A command assigns exactly if it is one word that starts outside quotes with a
/// variable name and `=`.
pub proof fn law_assignments_are_exactly_these(words: Seq<Seq<Part>>)
    ensures
        assignment(words) is Some <==> {
            &&& words.len() == 1
            &&& words[0].len() > 0
            &&& words[0][0].kind == RunKind::Unquoted
            &&& exists|name: Seq<char>, rest: Seq<char>|
                #![trigger name + seq!['='] + rest]
                plain_name(name) && words[0][0].text == name + seq!['='] + rest
        },
{
    if words.len() == 1 && words[0].len() > 0 && words[0][0].kind == RunKind::Unquoted {
        let text = words[0][0].text;
        let eq = index_from(text, '=', 0);
        lemma_index_from(text, '=', 0);
        if assignment(words) is Some {
            let name = text.take(eq);
            let rest = text.skip(eq + 1);
            law_names_are_letters_digits_underscores(name);
            assert(text =~= name + seq!['='] + rest);
        }
        if exists|name: Seq<char>, rest: Seq<char>|
            #![trigger name + seq!['='] + rest]
            plain_name(name) && text == name + seq!['='] + rest {
            let (name, rest) = choose|name: Seq<char>, rest: Seq<char>|
                #![trigger name + seq!['='] + rest]
                plain_name(name) && text == name + seq!['='] + rest;
            let n = name.len() as int;
            law_names_are_letters_digits_underscores(name);
            assert forall|k: int| 0 <= k < n implies text[k] != '=' by {
                assert(text[k] == name[k]);
                assert(name_char(name[k]));
            }
            assert(text[n] == '=');
            lemma_index_from_is(text, '=', 0, n);
            assert(text.take(n) =~= name);
        }
    }
}

/// `NAME=value` assigns to `NAME` what the value expands to, each part of it as it
/// was quoted.
pub proof fn law_assigned_value_expands_as_written(
    env: Map<Seq<char>, Seq<char>>,
    name: Seq<char>,
    text: Seq<char>,
    more: Seq<Part>,
)
    requires
        plain_name(name),
    ensures
        ({
            let first = Part { kind: RunKind::Unquoted, text: name + seq!['='] + text };
            let r = assignment(seq![seq![first] + more]);
            &&& r is Some
            &&& (r->0).0 == name
            &&& expansion(env, (r->0).1) == expansion(
                env,
                seq![Part { kind: RunKind::Unquoted, text }] + more,
            )
        }),
{
    let first = Part { kind: RunKind::Unquoted, text: name + seq!['='] + text };
    let word = seq![first] + more;
    let all = first.text;
    let n = name.len() as int;
    law_names_are_letters_digits_underscores(name);
    law_name_equals_is_an_assignment(name, text, more);
    assert forall|k: int| 0 <= k < n implies all[k] != '=' by {
        assert(name_char(name[k]));
    }
    lemma_index_from_is(all, '=', 0, n);
    assert(all.skip(n + 1) =~= text);
    assert(word.skip(1) =~= more);
    assert(word[0] == first);
    assert(seq![word][0] == word);
    let value = seq![Part { kind: RunKind::Unquoted, text }];
    if text.len() == 0 {
        law_words_expand_part_by_part(env, value, more);
        law_plain_word_is_unchanged(env, value);
        law_text_ignores_quotes(value, more, value[0]);
        assert(expansion(env, value) =~= Seq::empty());
        assert(expansion(env, value) + expansion(env, more) =~= expansion(env, more));
    }
}

} // verus!
