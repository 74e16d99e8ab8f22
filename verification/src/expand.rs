//! Variable expansion: resolves `$NAME` and `${NAME}` in a word.
//!
//! Nothing here touches the environment. The caller supplies a lookup function;
//! what is stated of an expansion holds for whatever that function answers, even
//! when it answers the same name differently from one call to the next.

use vstd::prelude::*;

use crate::text::{
    find_from, index_from, lemma_index_from, lemma_index_from_is, slice_text, to_chars,
};
use crate::word::{text_of, Part, RunKind, Word, WordPart};

verus! {

// ---------------------------------------------------------------------
// What a text refers to
// ---------------------------------------------------------------------

/// An element of a text: text that stands for itself, or a reference to a
/// variable.
#[verifier::ext_equal]
pub enum Piece {
    Text(Seq<char>),
    Var(Seq<char>),
}

/// A piece, and whether it was written inside quotes.
#[verifier::ext_equal]
pub struct Marked {
    pub piece: Piece,
    pub quoted: bool,
}

/// A character that can start a variable name.
pub open spec fn name_start(c: char) -> bool {
    'a' <= c <= 'z' || 'A' <= c <= 'Z' || c == '_'
}

/// A character that can stand in a variable name.
pub open spec fn name_char(c: char) -> bool {
    name_start(c) || '0' <= c <= '9'
}

/// The end of the run of name characters that starts at `i`.
pub open spec fn name_end(s: Seq<char>, i: int) -> int
    decreases s.len() - i,
{
    if 0 <= i < s.len() && name_char(s[i]) {
        name_end(s, i + 1)
    } else {
        i
    }
}

pub proof fn lemma_name_end(s: Seq<char>, i: int)
    requires
        0 <= i <= s.len(),
    ensures
        i <= name_end(s, i) <= s.len(),
        i < s.len() && name_char(s[i]) ==> i < name_end(s, i),
    decreases s.len() - i,
{
    if i < s.len() && name_char(s[i]) {
        lemma_name_end(s, i + 1);
    }
}

/// The reference that the `$` at position `i` opens: the name, and the position
/// behind the reference. A `$` that neither a closed `{...}` nor the start of a
/// name follows refers to nothing.
pub open spec fn reference(s: Seq<char>, i: int) -> Option<(Seq<char>, int)> {
    if i + 1 >= s.len() {
        None
    } else if s[i + 1] == '{' {
        let close = index_from(s, '}', i + 2);
        if close < s.len() {
            Some((s.subrange(i + 2, close), close + 1))
        } else {
            None
        }
    } else if name_start(s[i + 1]) {
        let end = name_end(s, i + 1);
        Some((s.subrange(i + 1, end), end))
    } else {
        None
    }
}

pub proof fn lemma_reference(s: Seq<char>, i: int)
    requires
        0 <= i < s.len(),
    ensures
        reference(s, i) is Some ==> i < (reference(s, i)->0).1 <= s.len(),
{
    if i + 1 < s.len() {
        if s[i + 1] == '{' {
            lemma_index_from(s, '}', i + 2);
        } else {
            lemma_name_end(s, i + 1);
        }
    }
}

/// The pieces of `s` from position `i` on.
pub open spec fn pieces(s: Seq<char>, i: int) -> Seq<Piece>
    decreases s.len() - i,
    when 0 <= i
{
    if i >= s.len() {
        Seq::empty()
    } else if s[i] == '$' && reference(s, i) is Some {
        let (name, end) = reference(s, i)->0;
        proof {
            lemma_reference(s, i);
        }
        seq![Piece::Var(name)] + pieces(s, end)
    } else {
        seq![Piece::Text(seq![s[i]])] + pieces(s, i + 1)
    }
}

/// `ps`, all marked alike.
pub open spec fn marked(ps: Seq<Piece>, quoted: bool) -> Seq<Marked> {
    ps.map_values(|piece: Piece| Marked { piece, quoted })
}

/// The pieces of one part of a word. Text in single quotes refers to nothing.
pub open spec fn part_pieces(part: Part) -> Seq<Marked> {
    match part.kind {
        RunKind::Single => marked(seq![Piece::Text(part.text)], true),
        RunKind::Double => marked(pieces(part.text, 0), true),
        RunKind::Unquoted => marked(pieces(part.text, 0), false),
    }
}

/// The pieces of a word.
pub open spec fn word_pieces(word: Seq<Part>) -> Seq<Marked>
    decreases word.len(),
{
    if word.len() == 0 {
        Seq::empty()
    } else {
        word_pieces(word.drop_last()) + part_pieces(word.last())
    }
}

// ---------------------------------------------------------------------
// What the pieces become
// ---------------------------------------------------------------------

/// The text that a lookup's answer stands for: a variable that is not set is
/// empty.
pub open spec fn answer_text(answer: Option<String>) -> Seq<char> {
    match answer {
        Some(s) => s@,
        None => Seq::empty(),
    }
}

/// Whether `lookup` can answer the name `name` with the text `value`.
pub open spec fn answers<F: Fn(&str) -> Option<String>>(
    lookup: F,
    name: Seq<char>,
    value: Seq<char>,
) -> bool {
    exists|n: &str, r: Option<String>|
        n@ == name && #[trigger] call_ensures(lookup, (n,), r) && value == answer_text(r)
}

/// Whether `value` is what `piece` can become under `lookup`.
pub open spec fn becomes<F: Fn(&str) -> Option<String>>(
    lookup: F,
    piece: Piece,
    value: Seq<char>,
) -> bool {
    match piece {
        Piece::Text(t) => value == t,
        Piece::Var(name) => answers(lookup, name, value),
    }
}

/// Whether `values` is what `ps` can become, piece by piece.
pub open spec fn become_all<F: Fn(&str) -> Option<String>>(
    lookup: F,
    ps: Seq<Marked>,
    values: Seq<Seq<char>>,
) -> bool {
    &&& values.len() == ps.len()
    &&& forall|k: int| 0 <= k < ps.len() ==> becomes(lookup, ps[k].piece, #[trigger] values[k])
}

/// `values`, one after the other.
pub open spec fn joined(values: Seq<Seq<char>>) -> Seq<char>
    decreases values.len(),
{
    if values.len() == 0 {
        Seq::empty()
    } else {
        joined(values.drop_last()) + values.last()
    }
}

/// One flag per character of `joined(values)`: whether it came out of a quoted
/// piece.
pub open spec fn quote_flags(ps: Seq<Marked>, values: Seq<Seq<char>>) -> Seq<bool>
    decreases values.len(),
{
    if values.len() == 0 {
        Seq::empty()
    } else {
        quote_flags(ps, values.drop_last()) + Seq::new(
            values.last().len(),
            |k: int| ps[values.len() - 1].quoted,
        )
    }
}

/// Whether `text`, with `quoted` saying which of its characters came out of
/// quotes, is an expansion of `word` under `lookup`.
pub open spec fn expands_to<F: Fn(&str) -> Option<String>>(
    lookup: F,
    word: Seq<Part>,
    text: Seq<char>,
    quoted: Seq<bool>,
) -> bool {
    exists|values: Seq<Seq<char>>| #[trigger]
        become_all(lookup, word_pieces(word), values) && text == joined(values) && quoted
            == quote_flags(word_pieces(word), values)
}

/// Whether `text` is an expansion of `word` under `lookup`.
pub open spec fn expands_to_text<F: Fn(&str) -> Option<String>>(
    lookup: F,
    word: Seq<Part>,
    text: Seq<char>,
) -> bool {
    exists|values: Seq<Seq<char>>| #[trigger]
        become_all(lookup, word_pieces(word), values) && text == joined(values)
}

/// Whether `lookup` takes every name.
pub open spec fn total<F: Fn(&str) -> Option<String>>(lookup: F) -> bool {
    forall|n: &str| call_requires(lookup, (n,))
}

// ---------------------------------------------------------------------
// Expansion
// ---------------------------------------------------------------------

pub fn is_var_start(c: Option<char>) -> (r: bool)
    ensures
        r == (c is Some && name_start(c->0)),
{
    match c {
        Some(c) => ('a' <= c && c <= 'z') || ('A' <= c && c <= 'Z') || c == '_',
        None => false,
    }
}

pub fn is_var_char(c: char) -> (r: bool)
    ensures
        r == name_char(c),
{
    is_var_start(Some(c)) || ('0' <= c && c <= '9')
}

/// The position of the `}` that closes a brace, at or after `start`.
pub fn find_closing_brace(chars: &[char], start: usize) -> (r: Option<usize>)
    requires
        start <= chars@.len(),
    ensures
        match r {
            Some(p) => p == index_from(chars@, '}', start as int) && start <= p < chars@.len(),
            None => index_from(chars@, '}', start as int) == chars@.len(),
        },
{
    let p: usize = find_from(chars, '}', start);
    if p < chars.len() {
        Some(p)
    } else {
        None
    }
}

proof fn lemma_push_value<F: Fn(&str) -> Option<String>>(
    lookup: F,
    ps: Seq<Marked>,
    m: Marked,
    values: Seq<Seq<char>>,
    v: Seq<char>,
)
    requires
        become_all(lookup, ps, values),
        becomes(lookup, m.piece, v),
    ensures
        become_all(lookup, ps.push(m), values.push(v)),
        joined(values.push(v)) == joined(values) + v,
        quote_flags(ps.push(m), values.push(v)) == quote_flags(ps, values) + Seq::new(
            v.len(),
            |k: int| m.quoted,
        ),
{
    let all = values.push(v);
    assert(all.drop_last() =~= values);
    lemma_flags_prefix(ps, ps.push(m), values);
    assert(quote_flags(ps.push(m), all) =~= quote_flags(ps, values) + Seq::new(
        v.len(),
        |k: int| m.quoted,
    ));
    assert forall|k: int| 0 <= k < ps.push(m).len() implies becomes(
        lookup,
        ps.push(m)[k].piece,
        #[trigger] all[k],
    ) by {
        if k < ps.len() {
            assert(all[k] == values[k]);
        }
    }
}

/// The flags depend only on the pieces that the values belong to.
proof fn lemma_flags_prefix(a: Seq<Marked>, b: Seq<Marked>, values: Seq<Seq<char>>)
    requires
        values.len() <= a.len(),
        values.len() <= b.len(),
        forall|k: int| 0 <= k < values.len() ==> a[k] == b[k],
    ensures
        quote_flags(a, values) == quote_flags(b, values),
    decreases values.len(),
{
    if values.len() > 0 {
        lemma_flags_prefix(a, b, values.drop_last());
        assert(Seq::new(values.last().len(), |k: int| a[values.len() - 1].quoted) =~= Seq::new(
            values.last().len(),
            |k: int| b[values.len() - 1].quoted,
        ));
    }
}

/// Values of two rows of pieces make up the values of both rows together.
proof fn lemma_join_values<F: Fn(&str) -> Option<String>>(
    lookup: F,
    ps: Seq<Marked>,
    qs: Seq<Marked>,
    vs: Seq<Seq<char>>,
    ws: Seq<Seq<char>>,
)
    requires
        become_all(lookup, ps, vs),
        become_all(lookup, qs, ws),
    ensures
        become_all(lookup, ps + qs, vs + ws),
        joined(vs + ws) == joined(vs) + joined(ws),
        quote_flags(ps + qs, vs + ws) == quote_flags(ps, vs) + quote_flags(qs, ws),
    decreases ws.len(),
{
    if ws.len() == 0 {
        assert(vs + ws =~= vs);
        assert(ps + qs =~= ps);
        assert(joined(vs) + joined(ws) =~= joined(vs));
        assert(quote_flags(ps, vs) + quote_flags(qs, ws) =~= quote_flags(ps, vs));
    } else {
        let n = (ws.len() - 1) as int;
        let qs0 = qs.drop_last();
        let ws0 = ws.drop_last();
        let m = qs.last();
        let w = ws.last();
        assert(becomes(lookup, qs[n].piece, ws[n]));
        assert forall|k: int| 0 <= k < qs0.len() implies becomes(
            lookup,
            qs0[k].piece,
            #[trigger] ws0[k],
        ) by {
            assert(ws0[k] == ws[k]);
        }
        lemma_join_values(lookup, ps, qs0, vs, ws0);
        lemma_push_value(lookup, ps + qs0, m, vs + ws0, w);
        lemma_push_value(lookup, qs0, m, ws0, w);
        assert(qs0.push(m) =~= qs);
        assert(ws0.push(w) =~= ws);
        assert((ps + qs0).push(m) =~= ps + qs);
        assert((vs + ws0).push(w) =~= vs + ws);
        assert(joined(vs) + joined(ws0) + w =~= joined(vs) + (joined(ws0) + w));
        let flags = Seq::new(w.len(), |k: int| m.quoted);
        assert(quote_flags(ps, vs) + quote_flags(qs0, ws0) + flags =~= quote_flags(ps, vs) + (
        quote_flags(qs0, ws0) + flags));
    }
}

/// Pieces that are all marked alike give flags that are all alike.
proof fn lemma_uniform_flags(ps: Seq<Marked>, values: Seq<Seq<char>>, quoted: bool)
    requires
        values.len() <= ps.len(),
        forall|k: int| 0 <= k < ps.len() ==> (#[trigger] ps[k]).quoted == quoted,
    ensures
        quote_flags(ps, values) == Seq::new(joined(values).len(), |k: int| quoted),
    decreases values.len(),
{
    if values.len() > 0 {
        lemma_uniform_flags(ps, values.drop_last(), quoted);
        assert(ps[values.len() - 1].quoted == quoted);
    }
    assert(quote_flags(ps, values) =~= Seq::new(joined(values).len(), |k: int| quoted));
}

/// One value, joined, is itself.
proof fn lemma_joined_one(v: Seq<char>)
    ensures
        joined(seq![v]) == v,
{
    let one = seq![v];
    assert(one.drop_last() =~= Seq::empty());
    assert(joined(one.drop_last()) + one.last() =~= v);
}

/// Text that refers to nothing becomes itself.
proof fn lemma_literal_values<F: Fn(&str) -> Option<String>>(lookup: F, s: Seq<char>)
    ensures
        ({
            let ps = part_pieces(Part { kind: RunKind::Single, text: s });
            &&& become_all(lookup, ps, seq![s])
            &&& joined(seq![s]) == s
            &&& quote_flags(ps, seq![s]) == Seq::new(s.len(), |k: int| true)
        }),
{
    let ps = part_pieces(Part { kind: RunKind::Single, text: s });
    lemma_joined_one(s);
    lemma_uniform_flags(ps, seq![s], true);
}

/// Replaces each `$NAME` and `${NAME}` of `text` by what `lookup` answers, or by
/// nothing when the variable is not set. A `$` that is not followed by a closed
/// brace or by the start of a name stays as it is. The flags mark every
/// character as glob-active.
pub fn expand_variables_tracked<F: Fn(&str) -> Option<String>>(text: &str, lookup: &F) -> (r: (
    String,
    Vec<bool>,
))
    requires
        total(*lookup),
    ensures
        expands_to(
            *lookup,
            seq![Part { kind: RunKind::Unquoted, text: text@ }],
            r.0@,
            r.1@,
        ),
{
    let chars: Vec<char> = to_chars(text);
    let mut result: String = String::new();
    let mut flags: Vec<bool> = Vec::new();
    let mut i: usize = 0;
    let ghost s = text@;
    let ghost all = marked(pieces(s, 0), false);
    let ghost mut done: Seq<Marked> = Seq::empty();
    let ghost mut values: Seq<Seq<char>> = Seq::empty();
    assert(done + marked(pieces(s, 0), false) =~= all);
    while i < chars.len()
        invariant
            chars@ == s,
            i <= s.len(),
            total(*lookup),
            done + marked(pieces(s, i as int), false) == all,
            become_all(*lookup, done, values),
            result@ == joined(values),
            flags@ == quote_flags(done, values),
        decreases s.len() - i,
    {
        let mut found: Option<(String, usize)> = None;
        if chars[i] == '$' && i + 1 < chars.len() {
            if chars[i + 1] == '{' {
                if let Some(close) = find_closing_brace(&chars, i + 2) {
                    found = Some((slice_text(&chars, i + 2, close), close + 1));
                }
            } else if is_var_start(Some(chars[i + 1])) {
                let mut end: usize = i + 1;
                while end < chars.len() && is_var_char(chars[end])
                    invariant
                        i + 1 <= end <= chars@.len(),
                        name_end(chars@, end as int) == name_end(chars@, i + 1),
                    decreases chars@.len() - end,
                {
                    end = end + 1;
                }
                found = Some((slice_text(&chars, i + 1, end), end));
            }
        }
        proof {
            lemma_reference(s, i as int);
            assert(found is Some == (s[i as int] == '$' && reference(s, i as int) is Some));
        }
        let ghost rest = pieces(s, i as int);
        match found {
            Some((name, next)) => {
                let n: &str = name.as_str();
                let answer: Option<String> = lookup(n);
                let ghost heard = answer;
                let value: String = match answer {
                    Some(v) => v,
                    None => String::new(),
                };
                let count: usize = to_chars(&value).len();
                result.append(&value);
                extend_flags(&mut flags, count, false);
                proof {
                    assert(call_ensures(*lookup, (n,), heard));
                    assert(value@ =~= answer_text(heard));
                    let m = Marked { piece: Piece::Var(name@), quoted: false };
                    assert(rest == seq![m.piece] + pieces(s, next as int));
                    lemma_push_value(*lookup, done, m, values, value@);
                    assert(done.push(m) + marked(pieces(s, next as int), false) =~= done + marked(
                        rest,
                        false,
                    ));
                    done = done.push(m);
                    values = values.push(value@);
                }
                i = next;
            },
            None => {
                let c: char = chars[i];
                result.push(c);
                flags.push(false);
                proof {
                    let m = Marked { piece: Piece::Text(seq![c]), quoted: false };
                    assert(rest == seq![m.piece] + pieces(s, i + 1));
                    lemma_push_value(*lookup, done, m, values, seq![c]);
                    assert(result@ =~= joined(values) + seq![c]);
                    assert(flags@ =~= quote_flags(done, values) + Seq::new(1, |k: int| false));
                    assert(done.push(m) + marked(pieces(s, i + 1), false) =~= done + marked(
                        rest,
                        false,
                    ));
                    done = done.push(m);
                    values = values.push(seq![c]);
                }
                i = i + 1;
            },
        }
    }
    proof {
        let word = seq![Part { kind: RunKind::Unquoted, text: s }];
        assert(done + marked(pieces(s, i as int), false) =~= done);
        lemma_single_part(word[0]);
        assert(become_all(*lookup, word_pieces(word), values));
    }
    (result, flags)
}

/// The pieces of a word of one part are the pieces of that part.
pub proof fn lemma_single_part(part: Part)
    ensures
        word_pieces(seq![part]) == part_pieces(part),
{
    let word = seq![part];
    assert(word.drop_last() =~= Seq::empty());
    assert(word_pieces(word.drop_last()) + part_pieces(part) =~= part_pieces(part));
}

/// Appends `count` times `mark`.
fn extend_flags(flags: &mut Vec<bool>, count: usize, mark: bool)
    ensures
        final(flags)@ == old(flags)@ + Seq::new(count as nat, |k: int| mark),
{
    let ghost before = flags@;
    let mut k: usize = 0;
    while k < count
        invariant
            k <= count,
            flags@ == before + Seq::new(k as nat, |k: int| mark),
        decreases count - k,
    {
        flags.push(mark);
        k = k + 1;
        assert(flags@ =~= before + Seq::new(k as nat, |k: int| mark));
    }
    assert(flags@ =~= before + Seq::new(count as nat, |k: int| mark));
}

/// Expands a word, and tells for each character of the result whether it came
/// from a quoted run. Globbing consults these flags: `"*"` stays literal while
/// `*.txt` expands, and so does a pattern that an unquoted variable holds.
pub fn expand_word_tracked<F: Fn(&str) -> Option<String>>(word: &Word, lookup: &F) -> (r: (
    String,
    Vec<bool>,
))
    requires
        total(*lookup),
    ensures
        expands_to(*lookup, word@, r.0@, r.1@),
        r.0@.len() == r.1@.len(),
{
    let mut text: String = String::new();
    let mut quoted: Vec<bool> = Vec::new();
    let mut i: usize = 0;
    let ghost mut values: Seq<Seq<char>> = Seq::empty();
    while i < word.parts.len()
        invariant
            i <= word.parts@.len(),
            total(*lookup),
            become_all(*lookup, word_pieces(word@.take(i as int)), values),
            text@ == joined(values),
            quoted@ == quote_flags(word_pieces(word@.take(i as int)), values),
        decreases word.parts@.len() - i,
    {
        let ghost part = word@[i as int];
        let ghost before = word_pieces(word@.take(i as int));
        let ghost mut more: Seq<Seq<char>> = Seq::empty();
        match &word.parts[i] {
            WordPart::Literal(s) => {
                let count: usize = to_chars(s).len();
                text.append(s);
                extend_flags(&mut quoted, count, true);
                proof {
                    lemma_literal_values(*lookup, s@);
                    more = seq![s@];
                }
            },
            WordPart::DoubleQuoted(s) => {
                let (expanded, _) = expand_variables_tracked(s, lookup);
                let count: usize = to_chars(&expanded).len();
                text.append(&expanded);
                extend_flags(&mut quoted, count, true);
                proof {
                    let bare = Part { kind: RunKind::Unquoted, text: s@ };
                    lemma_single_part(bare);
                    more = choose|vs: Seq<Seq<char>>| #[trigger]
                        become_all(*lookup, word_pieces(seq![bare]), vs) && expanded@ == joined(vs);
                    assert forall|k: int| 0 <= k < part_pieces(part).len() implies becomes(
                        *lookup,
                        part_pieces(part)[k].piece,
                        #[trigger] more[k],
                    ) by {
                        assert(part_pieces(part)[k].piece == part_pieces(bare)[k].piece);
                    }
                    lemma_uniform_flags(part_pieces(part), more, true);
                }
            },
            WordPart::Expandable(s) => {
                let (expanded, mut flags) = expand_variables_tracked(s, lookup);
                text.append(&expanded);
                let ghost given = flags@;
                quoted.append(&mut flags);
                proof {
                    lemma_single_part(part);
                    more = choose|vs: Seq<Seq<char>>| #[trigger]
                        become_all(*lookup, word_pieces(seq![part]), vs) && expanded@ == joined(vs)
                            && given == quote_flags(word_pieces(seq![part]), vs);
                }
            },
        }
        proof {
            assert(become_all(*lookup, part_pieces(part), more));
            lemma_join_values(*lookup, before, part_pieces(part), values, more);
            assert(word@.take(i + 1).drop_last() =~= word@.take(i as int));
            assert(word@.take(i + 1).last() == part);
            values = values + more;
        }
        i = i + 1;
    }
    proof {
        assert(word@.take(i as int) =~= word@);
        lemma_flag_count(word_pieces(word@), values);
    }
    (text, quoted)
}

/// There is one flag for each character.
pub proof fn lemma_flag_count(ps: Seq<Marked>, values: Seq<Seq<char>>)
    ensures
        quote_flags(ps, values).len() == joined(values).len(),
    decreases values.len(),
{
    if values.len() > 0 {
        lemma_flag_count(ps, values.drop_last());
    }
}

/// Expands a word into its final string: every `$NAME` and `${NAME}` outside
/// single quotes is replaced by what `lookup` answers, or by nothing when the
/// variable is not set.
pub fn expand_word<F: Fn(&str) -> Option<String>>(word: &Word, lookup: &F) -> (r: String)
    requires
        total(*lookup),
    ensures
        expands_to_text(*lookup, word@, r@),
{
    let (text, _) = expand_word_tracked(word, lookup);
    text
}

// ---------------------------------------------------------------------
// Laws
// ---------------------------------------------------------------------

/// Whether `lookup` answers every name as the variables `env` have it.
pub open spec fn reads_from<F: Fn(&str) -> Option<String>>(
    lookup: F,
    env: Map<Seq<char>, Seq<char>>,
) -> bool {
    forall|n: &str, r: Option<String>| #[trigger]
        call_ensures(lookup, (n,), r) ==> {
            &&& r is Some == env.dom().contains(n@)
            &&& r is Some ==> r->0@ == env[n@]
        }
}

/// The value of the variable `name`: empty if it is not set.
pub open spec fn value_in(env: Map<Seq<char>, Seq<char>>, name: Seq<char>) -> Seq<char> {
    if env.dom().contains(name) {
        env[name]
    } else {
        Seq::empty()
    }
}

/// What each piece becomes when the variables are `env`.
pub open spec fn values_in(env: Map<Seq<char>, Seq<char>>, ps: Seq<Marked>) -> Seq<Seq<char>> {
    ps.map_values(
        |m: Marked|
            match m.piece {
                Piece::Text(t) => t,
                Piece::Var(name) => value_in(env, name),
            },
    )
}

/// The expansion of `word` when the variables are `env`.
pub open spec fn expansion(env: Map<Seq<char>, Seq<char>>, word: Seq<Part>) -> Seq<char> {
    joined(values_in(env, word_pieces(word)))
}

/// Which characters of the expansion came out of quotes.
pub open spec fn expansion_flags(env: Map<Seq<char>, Seq<char>>, word: Seq<Part>) -> Seq<bool> {
    quote_flags(word_pieces(word), values_in(env, word_pieces(word)))
}

/// When the lookup answers from fixed variables, there is one expansion.
pub proof fn law_expansion_is_determined<F: Fn(&str) -> Option<String>>(
    lookup: F,
    env: Map<Seq<char>, Seq<char>>,
    word: Seq<Part>,
)
    requires
        reads_from(lookup, env),
    ensures
        forall|text: Seq<char>| #[trigger]
            expands_to_text(lookup, word, text) ==> text == expansion(env, word),
        forall|text: Seq<char>, quoted: Seq<bool>| #[trigger]
            expands_to(lookup, word, text, quoted) ==> text == expansion(env, word) && quoted
                == expansion_flags(env, word),
{
    let ps = word_pieces(word);
    assert forall|values: Seq<Seq<char>>| #[trigger] become_all(lookup, ps, values) implies values
        == values_in(env, ps) by {
        assert forall|k: int| 0 <= k < ps.len() implies values[k] == values_in(env, ps)[k] by {
            assert(becomes(lookup, ps[k].piece, values[k]));
        }
        assert(values =~= values_in(env, ps));
    }
}

/// A word that holds no `$` outside single quotes expands to its own text.
pub proof fn law_plain_word_is_unchanged(env: Map<Seq<char>, Seq<char>>, word: Seq<Part>)
    requires
        forall|k: int|
            0 <= k < word.len() ==> (#[trigger] word[k]).kind == RunKind::Single
                || !word[k].text.contains('$'),
    ensures
        expansion(env, word) == text_of(word),
    decreases word.len(),
{
    if word.len() > 0 {
        let part = word.last();
        let before = word.drop_last();
        assert forall|k: int| 0 <= k < before.len() implies (#[trigger] before[k]).kind
            == RunKind::Single || !before[k].text.contains('$') by {
            assert(before[k] == word[k]);
        }
        law_plain_word_is_unchanged(env, before);
        assert(word[word.len() - 1] == part);
        let ps = part_pieces(part);
        lemma_values_add(env, word_pieces(before), ps);
        if part.kind == RunKind::Single {
            assert(values_in(env, ps) =~= seq![part.text]);
            lemma_joined_one(part.text);
        } else {
            lemma_plain_pieces(env, part.text, 0, part.kind == RunKind::Double);
            assert(part.text.subrange(0, part.text.len() as int) =~= part.text);
        }
    }
}

/// The text of a part that holds no `$` makes up its pieces, one character each.
proof fn lemma_plain_pieces(env: Map<Seq<char>, Seq<char>>, s: Seq<char>, i: int, quoted: bool)
    requires
        0 <= i <= s.len(),
        !s.contains('$'),
    ensures
        joined(values_in(env, marked(pieces(s, i), quoted))) == s.subrange(i, s.len() as int),
    decreases s.len() - i,
{
    if i < s.len() {
        assert(s.contains(s[i]));
        lemma_plain_pieces(env, s, i + 1, quoted);
        let one = seq![Piece::Text(seq![s[i]])];
        assert(pieces(s, i) == one + pieces(s, i + 1));
        assert(marked(pieces(s, i), quoted) =~= marked(one, quoted) + marked(
            pieces(s, i + 1),
            quoted,
        ));
        lemma_values_add(env, marked(one, quoted), marked(pieces(s, i + 1), quoted));
        assert(values_in(env, marked(one, quoted)) =~= seq![seq![s[i]]]);
        lemma_joined_one(seq![s[i]]);
        assert(seq![s[i]] + s.subrange(i + 1, s.len() as int) =~= s.subrange(i, s.len() as int));
    } else {
        assert(values_in(env, marked(pieces(s, i), quoted)) =~= Seq::empty());
        assert(s.subrange(i, s.len() as int) =~= Seq::empty());
    }
}

/// What two rows of pieces become together is what each becomes.
pub proof fn lemma_values_add(env: Map<Seq<char>, Seq<char>>, a: Seq<Marked>, b: Seq<Marked>)
    ensures
        joined(values_in(env, a + b)) == joined(values_in(env, a)) + joined(values_in(env, b)),
    decreases b.len(),
{
    if b.len() == 0 {
        assert(a + b =~= a);
        assert(joined(values_in(env, a)) + joined(values_in(env, b)) =~= joined(values_in(env, a)));
    } else {
        lemma_values_add(env, a, b.drop_last());
        let x = values_in(env, a + b);
        let y = values_in(env, b);
        assert(x.drop_last() =~= values_in(env, a + b.drop_last()));
        assert(y.drop_last() =~= values_in(env, b.drop_last()));
        assert(x.last() == y.last());
        assert(joined(x) =~= joined(values_in(env, a)) + joined(y));
    }
}

/// A word written wholly inside quotes expands to quoted characters only.
pub proof fn law_quoted_word_stays_quoted<F: Fn(&str) -> Option<String>>(
    lookup: F,
    word: Seq<Part>,
    text: Seq<char>,
    quoted: Seq<bool>,
)
    requires
        forall|k: int| 0 <= k < word.len() ==> (#[trigger] word[k]).kind != RunKind::Unquoted,
        expands_to(lookup, word, text, quoted),
    ensures
        quoted == Seq::new(text.len(), |k: int| true),
{
    lemma_quoted_pieces(word);
    let values = choose|values: Seq<Seq<char>>| #[trigger]
        become_all(lookup, word_pieces(word), values) && text == joined(values) && quoted
            == quote_flags(word_pieces(word), values);
    lemma_uniform_flags(word_pieces(word), values, true);
}

proof fn lemma_quoted_pieces(word: Seq<Part>)
    requires
        forall|k: int| 0 <= k < word.len() ==> (#[trigger] word[k]).kind != RunKind::Unquoted,
    ensures
        forall|k: int| 0 <= k < word_pieces(word).len() ==> (#[trigger] word_pieces(word)[k]).quoted,
    decreases word.len(),
{
    if word.len() > 0 {
        let before = word.drop_last();
        assert forall|k: int| 0 <= k < before.len() implies (#[trigger] before[k]).kind
            != RunKind::Unquoted by {
            assert(before[k] == word[k]);
        }
        lemma_quoted_pieces(before);
        assert(word[word.len() - 1].kind != RunKind::Unquoted);
        let ps = word_pieces(word);
        assert forall|k: int| 0 <= k < ps.len() implies (#[trigger] ps[k]).quoted by {
            if k < word_pieces(before).len() {
                assert(ps[k] == word_pieces(before)[k]);
            } else {
                assert(ps[k] == part_pieces(word.last())[k - word_pieces(before).len()]);
            }
        }
    }
}

/// Whether `name` is a variable name.
pub open spec fn is_name(name: Seq<char>) -> bool {
    name.len() > 0 && name_start(name[0]) && forall|k: int|
        0 <= k < name.len() ==> name_char(#[trigger] name[k])
}

/// `$NAME`, unquoted or in double quotes, expands to the value of `NAME`.
pub proof fn law_reference_expands(
    env: Map<Seq<char>, Seq<char>>,
    name: Seq<char>,
    kind: RunKind,
)
    requires
        is_name(name),
        kind != RunKind::Single,
    ensures
        expansion(env, seq![Part { kind, text: seq!['$'] + name }]) == value_in(env, name),
{
    let s = seq!['$'] + name;
    lemma_name_end_is(s, 1, s.len() as int);
    assert(s.subrange(1, s.len() as int) =~= name);
    lemma_lone_reference(env, s, name, kind);
}

/// `${NAME}`, unquoted or in double quotes, expands to the value of `NAME`.
pub proof fn law_braced_reference_expands(
    env: Map<Seq<char>, Seq<char>>,
    name: Seq<char>,
    kind: RunKind,
)
    requires
        !name.contains('}'),
        kind != RunKind::Single,
    ensures
        expansion(env, seq![Part { kind, text: seq!['$', '{'] + name + seq!['}'] }]) == value_in(
            env,
            name,
        ),
{
    let s = seq!['$', '{'] + name + seq!['}'];
    assert forall|k: int| 2 <= k < s.len() - 1 implies s[k] != '}' by {
        assert(name.contains(name[k - 2]));
    }
    lemma_index_from_is(s, '}', 2, s.len() - 1);
    assert(s.subrange(2, s.len() - 1) =~= name);
    lemma_lone_reference(env, s, name, kind);
}

proof fn lemma_lone_reference(
    env: Map<Seq<char>, Seq<char>>,
    s: Seq<char>,
    name: Seq<char>,
    kind: RunKind,
)
    requires
        s.len() > 0,
        s[0] == '$',
        reference(s, 0) == Some((name, s.len() as int)),
        kind != RunKind::Single,
    ensures
        expansion(env, seq![Part { kind, text: s }]) == value_in(env, name),
{
    let part = Part { kind, text: s };
    lemma_single_part(part);
    assert(pieces(s, s.len() as int) =~= Seq::empty());
    assert(pieces(s, 0) =~= seq![Piece::Var(name)]);
    let values = values_in(env, part_pieces(part));
    assert(values =~= seq![value_in(env, name)]);
    lemma_joined_one(value_in(env, name));
}

proof fn lemma_name_end_is(s: Seq<char>, i: int, e: int)
    requires
        0 <= i <= e <= s.len(),
        forall|k: int| i <= k < e ==> name_char(#[trigger] s[k]),
        e == s.len() || !name_char(s[e]),
    ensures
        name_end(s, i) == e,
    decreases e - i,
{
    if i < e {
        lemma_name_end_is(s, i + 1, e);
    }
}

// ---------------------------------------------------------------------
// How a text expands
// ---------------------------------------------------------------------

/// A letter, a digit or an underscore.
pub open spec fn word_sign(c: char) -> bool {
    ('a' <= c <= 'z') || ('A' <= c <= 'Z') || ('0' <= c <= '9') || c == '_'
}

/// Whether a text consists of letters, digits and underscores, and does not start
/// with a digit.
pub open spec fn plain_name(name: Seq<char>) -> bool {
    &&& name.len() > 0
    &&& !('0' <= name[0] <= '9')
    &&& forall|k: int| 0 <= k < name.len() ==> word_sign(#[trigger] name[k])
}

/// A variable name is made of letters, digits and underscores, and does not start
/// with a digit.
pub proof fn law_names_are_letters_digits_underscores(name: Seq<char>)
    ensures
        is_name(name) <==> plain_name(name),
{
    if plain_name(name) {
        assert(word_sign(name[0]));
        assert forall|k: int| 0 <= k < name.len() implies name_char(#[trigger] name[k]) by {
            assert(word_sign(name[k]));
        }
    }
    if is_name(name) {
        assert forall|k: int| 0 <= k < name.len() implies word_sign(#[trigger] name[k]) by {
            assert(name_char(name[k]));
        }
    }
}

proof fn lemma_index_shift(a: Seq<char>, b: Seq<char>, c: char, i: int)
    requires
        0 <= i <= b.len(),
    ensures
        index_from(a + b, c, a.len() + i) == a.len() + index_from(b, c, i),
    decreases b.len() - i,
{
    if i < b.len() {
        assert((a + b)[a.len() + i] == b[i]);
        if b[i] != c {
            lemma_index_shift(a, b, c, i + 1);
        }
    }
}

proof fn lemma_name_end_shift(a: Seq<char>, b: Seq<char>, i: int)
    requires
        0 <= i <= b.len(),
    ensures
        name_end(a + b, a.len() + i) == a.len() + name_end(b, i),
    decreases b.len() - i,
{
    if i < b.len() {
        assert((a + b)[a.len() + i] == b[i]);
        if name_char(b[i]) {
            lemma_name_end_shift(a, b, i + 1);
        }
    }
}

/// A reference is the same wherever the text stands at the end.
proof fn lemma_reference_shift(a: Seq<char>, b: Seq<char>, i: int)
    requires
        0 <= i < b.len(),
    ensures
        reference(a + b, a.len() + i) == match reference(b, i) {
            Some((name, end)) => Some((name, a.len() + end)),
            None => None,
        },
{
    let s = a + b;
    let d = a.len() as int;
    if i + 1 < b.len() {
        assert(s[d + i + 1] == b[i + 1]);
        if b[i + 1] == '{' {
            lemma_index_from(b, '}', i + 2);
            lemma_index_shift(a, b, '}', i + 2);
            let close = index_from(b, '}', i + 2);
            assert(index_from(s, '}', d + (i + 2)) == d + close);
            if close < b.len() {
                assert(s.subrange(d + i + 2, d + close) =~= b.subrange(i + 2, close));
            }
        } else if name_start(b[i + 1]) {
            lemma_name_end(b, i + 1);
            lemma_name_end_shift(a, b, i + 1);
            let end = name_end(b, i + 1);
            assert(name_end(s, d + (i + 1)) == d + end);
            assert(s.subrange(d + i + 1, d + end) =~= b.subrange(i + 1, end));
        }
    }
}

/// The pieces of a text are the same wherever it stands at the end.
proof fn lemma_pieces_shift(a: Seq<char>, b: Seq<char>, i: int)
    requires
        0 <= i <= b.len(),
    ensures
        pieces(a + b, a.len() + i) == pieces(b, i),
    decreases b.len() - i,
{
    if i < b.len() {
        let s = a + b;
        assert(s[a.len() + i] == b[i]);
        lemma_reference_shift(a, b, i);
        if b[i] == '$' && reference(b, i) is Some {
            let (name, end) = reference(b, i)->0;
            lemma_reference(b, i);
            lemma_pieces_shift(a, b, end);
            lemma_reference(s, a.len() + i);
            assert(pieces(s, a.len() + i) == seq![Piece::Var(name)] + pieces(s, a.len() + end));
        } else {
            lemma_pieces_shift(a, b, i + 1);
            assert(pieces(s, a.len() + i) == seq![Piece::Text(seq![s[a.len() + i]])] + pieces(
                s,
                a.len() + (i + 1),
            ));
        }
    }
}

/// What the pieces of a text become from position `i` on.
spec fn text_value(env: Map<Seq<char>, Seq<char>>, s: Seq<char>, i: int) -> Seq<char> {
    joined(values_in(env, marked(pieces(s, i), false)))
}

/// Marks do not change what pieces become.
proof fn lemma_marks_do_not_matter(env: Map<Seq<char>, Seq<char>>, ps: Seq<Piece>, quoted: bool)
    ensures
        values_in(env, marked(ps, quoted)) == values_in(env, marked(ps, false)),
{
    assert(values_in(env, marked(ps, quoted)) =~= values_in(env, marked(ps, false)));
}

proof fn lemma_part_value(env: Map<Seq<char>, Seq<char>>, kind: RunKind, s: Seq<char>)
    requires
        kind != RunKind::Single,
    ensures
        expansion(env, seq![Part { kind, text: s }]) == text_value(env, s, 0),
{
    lemma_single_part(Part { kind, text: s });
    lemma_marks_do_not_matter(env, pieces(s, 0), true);
}

proof fn lemma_value_step(env: Map<Seq<char>, Seq<char>>, s: Seq<char>, i: int)
    requires
        0 <= i < s.len(),
    ensures
        text_value(env, s, i) == if s[i] == '$' && reference(s, i) is Some {
            value_in(env, (reference(s, i)->0).0) + text_value(env, s, (reference(s, i)->0).1)
        } else {
            seq![s[i]] + text_value(env, s, i + 1)
        },
{
    lemma_reference(s, i);
    let (piece, next, value) = if s[i] == '$' && reference(s, i) is Some {
        let (name, end) = reference(s, i)->0;
        (Piece::Var(name), end, value_in(env, name))
    } else {
        (Piece::Text(seq![s[i]]), i + 1, seq![s[i]])
    };
    let one = marked(seq![piece], false);
    let rest = marked(pieces(s, next), false);
    assert(marked(pieces(s, i), false) =~= one + rest);
    lemma_values_add(env, one, rest);
    assert(values_in(env, one) =~= seq![value]);
    lemma_joined_one(value);
}

proof fn lemma_value_from(env: Map<Seq<char>, Seq<char>>, a: Seq<char>, b: Seq<char>)
    ensures
        text_value(env, a + b, a.len() as int) == text_value(env, b, 0),
{
    lemma_pieces_shift(a, b, 0);
}

proof fn lemma_value_past(env: Map<Seq<char>, Seq<char>>, a: Seq<char>, b: Seq<char>, i: int)
    requires
        0 <= i <= a.len(),
        !a.contains('$'),
    ensures
        text_value(env, a + b, i) == a.skip(i) + text_value(env, b, 0),
    decreases a.len() - i,
{
    if i < a.len() {
        assert((a + b)[i] == a[i]);
        assert(a.contains(a[i]));
        lemma_value_step(env, a + b, i);
        lemma_value_past(env, a, b, i + 1);
        assert(seq![a[i]] + (a.skip(i + 1) + text_value(env, b, 0)) =~= a.skip(i) + text_value(
            env,
            b,
            0,
        ));
    } else {
        lemma_value_from(env, a, b);
        assert(a.skip(i) + text_value(env, b, 0) =~= text_value(env, b, 0));
    }
}

/// Text in front of the first `$` of a part stays as it is, and what follows it
/// expands as it would alone.
pub proof fn law_text_before_a_dollar_stays(
    env: Map<Seq<char>, Seq<char>>,
    kind: RunKind,
    a: Seq<char>,
    b: Seq<char>,
)
    requires
        kind != RunKind::Single,
        !a.contains('$'),
    ensures
        expansion(env, seq![Part { kind, text: a + b }]) == a + expansion(
            env,
            seq![Part { kind, text: b }],
        ),
{
    lemma_part_value(env, kind, a + b);
    lemma_part_value(env, kind, b);
    lemma_value_past(env, a, b, 0);
    assert(a.skip(0) =~= a);
}

/// `$NAME` with text around it, unquoted or in double quotes, expands to the text
/// before it, the value of `NAME` or nothing if it is not set, and the expansion of
/// what follows. The name ends where a character follows that cannot stand in one.
pub proof fn law_reference_expands_in_place(
    env: Map<Seq<char>, Seq<char>>,
    kind: RunKind,
    a: Seq<char>,
    name: Seq<char>,
    b: Seq<char>,
)
    requires
        kind != RunKind::Single,
        !a.contains('$'),
        plain_name(name),
        b.len() == 0 || !word_sign(b[0]),
    ensures
        expansion(env, seq![Part { kind, text: a + seq!['$'] + name + b }]) == a + (
        if env.dom().contains(name) {
            env[name]
        } else {
            Seq::empty()
        }) + expansion(env, seq![Part { kind, text: b }]),
{
    law_names_are_letters_digits_underscores(name);
    let t = seq!['$'] + name + b;
    let e = 1 + name.len() as int;
    assert(a + t =~= a + seq!['$'] + name + b);
    law_text_before_a_dollar_stays(env, kind, a, t);
    assert forall|k: int| 1 <= k < e implies name_char(#[trigger] t[k]) by {
        assert(t[k] == name[k - 1]);
    }
    if b.len() > 0 {
        assert(t[e] == b[0]);
    }
    lemma_name_end_is(t, 1, e);
    assert(t[1] == name[0]);
    assert(t.subrange(1, e) =~= name);
    lemma_reference_then(env, kind, seq!['$'] + name, b, name);
    assert(a + (value_in(env, name) + expansion(env, seq![Part { kind, text: b }])) =~= a
        + value_in(env, name) + expansion(env, seq![Part { kind, text: b }]));
}

/// `${NAME}` with text around it, unquoted or in double quotes, expands to the
/// text before it, the value of `NAME` or nothing if it is not set, and the
/// expansion of what follows, whatever that is.
pub proof fn law_braced_reference_expands_in_place(
    env: Map<Seq<char>, Seq<char>>,
    kind: RunKind,
    a: Seq<char>,
    name: Seq<char>,
    b: Seq<char>,
)
    requires
        kind != RunKind::Single,
        !a.contains('$'),
        !name.contains('}'),
    ensures
        expansion(env, seq![Part { kind, text: a + seq!['$', '{'] + name + seq!['}'] + b }]) == a
            + (if env.dom().contains(name) {
            env[name]
        } else {
            Seq::empty()
        }) + expansion(env, seq![Part { kind, text: b }]),
{
    let r = seq!['$', '{'] + name + seq!['}'];
    let t = r + b;
    let close = 2 + name.len() as int;
    assert(a + t =~= a + seq!['$', '{'] + name + seq!['}'] + b);
    law_text_before_a_dollar_stays(env, kind, a, t);
    assert forall|k: int| 2 <= k < close implies t[k] != '}' by {
        assert(t[k] == name[k - 2]);
        assert(name.contains(name[k - 2]));
    }
    assert(t[close] == '}');
    lemma_index_from_is(t, '}', 2, close);
    assert(t.subrange(2, close) =~= name);
    lemma_reference_then(env, kind, r, b, name);
    assert(a + (value_in(env, name) + expansion(env, seq![Part { kind, text: b }])) =~= a
        + value_in(env, name) + expansion(env, seq![Part { kind, text: b }]));
}

proof fn lemma_reference_then(
    env: Map<Seq<char>, Seq<char>>,
    kind: RunKind,
    r: Seq<char>,
    b: Seq<char>,
    name: Seq<char>,
)
    requires
        kind != RunKind::Single,
        r.len() > 0,
        r[0] == '$',
        reference(r + b, 0) == Some((name, r.len() as int)),
    ensures
        expansion(env, seq![Part { kind, text: r + b }]) == value_in(env, name) + expansion(
            env,
            seq![Part { kind, text: b }],
        ),
{
    lemma_part_value(env, kind, r + b);
    lemma_part_value(env, kind, b);
    assert((r + b)[0] == '$');
    lemma_value_step(env, r + b, 0);
    lemma_value_from(env, r, b);
}

/// A `$` that neither the start of a name nor a closed `{...}` follows stays as it
/// is.
pub proof fn law_lone_dollar_stays(
    env: Map<Seq<char>, Seq<char>>,
    kind: RunKind,
    a: Seq<char>,
    b: Seq<char>,
)
    requires
        kind != RunKind::Single,
        !a.contains('$'),
        b.len() > 0 ==> {
            ||| b[0] == '{' && !b.contains('}')
            ||| b[0] != '{' && !word_sign(b[0])
            ||| '0' <= b[0] <= '9'
        },
    ensures
        expansion(env, seq![Part { kind, text: a + seq!['$'] + b }]) == a + seq!['$'] + expansion(
            env,
            seq![Part { kind, text: b }],
        ),
{
    let t = seq!['$'] + b;
    assert(a + t =~= a + seq!['$'] + b);
    law_text_before_a_dollar_stays(env, kind, a, t);
    lemma_part_value(env, kind, t);
    lemma_part_value(env, kind, b);
    if b.len() > 0 {
        assert(t[1] == b[0]);
        if b[0] == '{' {
            lemma_index_from(t, '}', 2);
            let close = index_from(t, '}', 2);
            if close < t.len() {
                assert(b[close - 1] == '}');
                assert(b.contains('}'));
            }
        }
    }
    assert(reference(t, 0) is None);
    lemma_value_step(env, t, 0);
    lemma_value_from(env, seq!['$'], b);
    assert(text_value(env, t, 1) == text_value(env, b, 0));
    assert(a + (seq!['$'] + text_value(env, b, 0)) =~= a + seq!['$'] + text_value(env, b, 0));
}

/// Double quotes do not change what a text expands to; single quotes keep it as it
/// is written.
pub proof fn law_quotes_and_expansion(env: Map<Seq<char>, Seq<char>>, text: Seq<char>)
    ensures
        expansion(env, seq![Part { kind: RunKind::Double, text }]) == expansion(
            env,
            seq![Part { kind: RunKind::Unquoted, text }],
        ),
        expansion(env, seq![Part { kind: RunKind::Single, text }]) == text,
{
    lemma_part_value(env, RunKind::Double, text);
    lemma_part_value(env, RunKind::Unquoted, text);
    lemma_single_part(Part { kind: RunKind::Single, text });
    let ps = part_pieces(Part { kind: RunKind::Single, text });
    assert(values_in(env, ps) =~= seq![text]);
    lemma_joined_one(text);
}

proof fn lemma_word_pieces_add(a: Seq<Part>, b: Seq<Part>)
    ensures
        word_pieces(a + b) == word_pieces(a) + word_pieces(b),
    decreases b.len(),
{
    if b.len() == 0 {
        assert(a + b =~= a);
        assert(word_pieces(a) + word_pieces(b) =~= word_pieces(a));
    } else {
        assert((a + b).drop_last() =~= a + b.drop_last());
        lemma_word_pieces_add(a, b.drop_last());
        assert(word_pieces(a + b) =~= word_pieces(a) + word_pieces(b));
    }
}

proof fn lemma_flags_add(
    env: Map<Seq<char>, Seq<char>>,
    a: Seq<Marked>,
    b: Seq<Marked>,
)
    ensures
        quote_flags(a + b, values_in(env, a + b)) == quote_flags(a, values_in(env, a))
            + quote_flags(b, values_in(env, b)),
    decreases b.len(),
{
    let va = values_in(env, a);
    let vb = values_in(env, b);
    let v = values_in(env, a + b);
    assert(v =~= va + vb);
    if b.len() == 0 {
        assert(a + b =~= a);
        assert(quote_flags(a, va) + quote_flags(b, vb) =~= quote_flags(a, va));
    } else {
        let b0 = b.drop_last();
        lemma_flags_add(env, a, b0);
        assert(v.drop_last() =~= values_in(env, a + b0));
        assert(vb.drop_last() =~= values_in(env, b0));
        lemma_flags_prefix(a + b, a + b0, v.drop_last());
        lemma_flags_prefix(b, b0, vb.drop_last());
        assert(quote_flags(a + b, v) =~= quote_flags(a, va) + quote_flags(b, vb));
    }
}

/// The parts of a word expand each by itself, one after the other.
pub proof fn law_words_expand_part_by_part(
    env: Map<Seq<char>, Seq<char>>,
    a: Seq<Part>,
    b: Seq<Part>,
)
    ensures
        expansion(env, a + b) == expansion(env, a) + expansion(env, b),
        expansion_flags(env, a + b) == expansion_flags(env, a) + expansion_flags(env, b),
        expansion(env, Seq::empty()) == Seq::<char>::empty(),
{
    lemma_word_pieces_add(a, b);
    lemma_values_add(env, word_pieces(a), word_pieces(b));
    lemma_flags_add(env, word_pieces(a), word_pieces(b));
}

/// What comes out of a part is quoted, character by character, exactly if the part
/// was written in quotes.
pub proof fn law_quoting_is_kept(env: Map<Seq<char>, Seq<char>>, part: Part)
    ensures
        expansion_flags(env, seq![part]) == Seq::new(
            expansion(env, seq![part]).len(),
            |k: int| part.kind != RunKind::Unquoted,
        ),
{
    lemma_single_part(part);
    let ps = part_pieces(part);
    lemma_uniform_flags(ps, values_in(env, ps), part.kind != RunKind::Unquoted);
}

} // verus!
