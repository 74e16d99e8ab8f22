//! Laws of the token stream.

use vstd::prelude::*;

use crate::lexer::{
    absorbed, after, closed_by, finished, followed_by, is_blank, is_fd2, is_quote, lemma_plain_end,
    lemma_plain_end_is, lexed, operator, plain, plain_end, scan,
};
use crate::text::{index_from, lemma_index_from, lemma_index_from_is};
use crate::word::{Part, RunKind, Tok};

verus! {

// ---------------------------------------------------------------------
// The end of input
// ---------------------------------------------------------------------

proof fn lemma_scan_has_no_eof(s: Seq<char>, i: int, word: Seq<Part>)
    requires
        0 <= i,
    ensures
        forall|k: int| 0 <= k < scan(s, i, word).0.len() ==> !(#[trigger] scan(s, i, word).0[k] is Eof),
    decreases s.len() - i,
{
    if i < s.len() {
        if is_quote(s[i]) {
            let end = index_from(s, s[i], i + 1);
            lemma_index_from(s, s[i], i + 1);
            let kind = RunKind::of_quote(s[i]);
            let run = Part { kind, text: s.subrange(i + 1, end) };
            lemma_scan_has_no_eof(
                s,
                if end < s.len() {
                    end + 1
                } else {
                    end
                },
                absorbed(word, kind).push(run),
            );
        } else if is_blank(s[i]) {
            lemma_scan_has_no_eof(s, i + 1, Seq::empty());
            lemma_no_eof_after(finished(word), scan(s, i + 1, Seq::empty()).0);
        } else if operator(s, i) is Some {
            let (op, width) = operator(s, i)->0;
            lemma_scan_has_no_eof(s, i + width, Seq::empty());
            lemma_no_eof_after(closed_by(word, op), scan(s, i + width, Seq::empty()).0);
        } else {
            let end = plain_end(s, i);
            lemma_plain_end(s, i);
            let run = Part { kind: RunKind::Unquoted, text: s.subrange(i, end) };
            lemma_scan_has_no_eof(s, end, word.push(run));
        }
    }
}

proof fn lemma_no_eof_after(a: Seq<Tok>, b: Seq<Tok>)
    requires
        forall|k: int| 0 <= k < a.len() ==> !(#[trigger] a[k] is Eof),
        forall|k: int| 0 <= k < b.len() ==> !(#[trigger] b[k] is Eof),
    ensures
        forall|k: int| 0 <= k < (a + b).len() ==> !(#[trigger] (a + b)[k] is Eof),
{
    assert forall|k: int| 0 <= k < (a + b).len() implies !(#[trigger] (a + b)[k] is Eof) by {
        if k < a.len() {
            assert((a + b)[k] == a[k]);
        } else {
            assert((a + b)[k] == b[k - a.len()]);
        }
    }
}

/// Every token stream ends with the end of input, and holds it nowhere else.
pub proof fn law_one_eof_at_the_end(s: Seq<char>)
    ensures
        lexed(s).len() > 0,
        lexed(s).last() is Eof,
        forall|k: int| 0 <= k < lexed(s).len() - 1 ==> !(#[trigger] lexed(s)[k] is Eof),
{
    let (tokens, word) = scan(s, 0, Seq::empty());
    lemma_scan_has_no_eof(s, 0, Seq::empty());
    lemma_no_eof_after(tokens, finished(word));
    assert forall|k: int| 0 <= k < lexed(s).len() - 1 implies !(#[trigger] lexed(s)[k] is Eof) by {
        assert(lexed(s)[k] == (tokens + finished(word))[k]);
    }
}

// ---------------------------------------------------------------------
// Inputs one behind the other
// ---------------------------------------------------------------------

/// Whether every quote that opens at or after `i` is closed. Position `i` itself
/// is outside quotes.
pub open spec fn quotes_closed(s: Seq<char>, i: int) -> bool
    decreases s.len() - i,
    when 0 <= i
{
    if i >= s.len() {
        true
    } else if is_quote(s[i]) {
        let end = index_from(s, s[i], i + 1);
        proof {
            lemma_index_from(s, s[i], i + 1);
        }
        end < s.len() && quotes_closed(s, end + 1)
    } else {
        quotes_closed(s, i + 1)
    }
}

/// A character that ends a word, and that is not the second half of any
/// operator.
pub open spec fn separates(c: char) -> bool {
    is_blank(c) || c == ';' || c == '\n'
}

proof fn lemma_closed_later(s: Seq<char>, i: int, j: int)
    requires
        0 <= i <= j <= s.len(),
        quotes_closed(s, i),
        forall|k: int| i <= k < j ==> !is_quote(#[trigger] s[k]),
    ensures
        quotes_closed(s, j),
    decreases j - i,
{
    if i < j {
        lemma_closed_later(s, i + 1, j);
    }
}

/// Whether `t` starts with something that ends a run of ordinary text, and that
/// makes no operator of the last character of `a`.
spec fn breaks_off(a: Seq<char>, t: Seq<char>) -> bool {
    &&& t.len() > 0
    &&& !plain(t, 0)
    &&& separates(t[0]) || a.len() == 0 || (a.last() != '&' && a.last() != '|' && a.last() != '>')
}

/// A text that something follows that breaks it off is scanned as it would be
/// alone, and then from there on.
proof fn lemma_scan_prefix(a: Seq<char>, t: Seq<char>, i: int, word: Seq<Part>)
    requires
        0 <= i <= a.len(),
        quotes_closed(a, i),
        breaks_off(a, t),
    ensures
        ({
            let (tokens, left) = scan(a, i, word);
            scan(a + t, i, word) == after(tokens, scan(a + t, a.len() as int, left))
        }),
    decreases a.len() - i,
{
    let s = a + t;
    let n = a.len() as int;
    if i >= n {
        let rest = scan(s, n, word);
        assert(Seq::<Tok>::empty() + rest.0 =~= rest.0);
    } else {
        assert(s[i] == a[i]);
        if is_quote(a[i]) {
            let end = index_from(a, a[i], i + 1);
            lemma_index_from(a, a[i], i + 1);
            assert forall|k: int| i + 1 <= k < end implies s[k] != s[i] by {
                assert(s[k] == a[k]);
            }
            assert(s[end] == a[end]);
            lemma_index_from_is(s, s[i], i + 1, end);
            assert(s.subrange(i + 1, end) =~= a.subrange(i + 1, end));
            let kind = RunKind::of_quote(a[i]);
            let run = Part { kind, text: a.subrange(i + 1, end) };
            lemma_scan_prefix(a, t, end + 1, absorbed(word, kind).push(run));
        } else if is_blank(a[i]) {
            lemma_scan_prefix(a, t, i + 1, Seq::empty());
            lemma_after(finished(word), a, s, i + 1);
        } else {
            lemma_operator_prefix(a, t, i);
            if operator(a, i) is Some {
                let (op, width) = operator(a, i)->0;
                lemma_closed_later(a, i, i + width);
                lemma_scan_prefix(a, t, i + width, Seq::empty());
                lemma_after(closed_by(word, op), a, s, i + width);
            } else {
                let end = plain_end(a, i);
                lemma_plain_end(a, i);
                assert forall|k: int| i <= k < end implies plain(s, k) by {
                    assert(plain(a, k));
                    assert(s[k] == a[k]);
                    lemma_operator_prefix(a, t, k);
                }
                if end < n {
                    assert(s[end] == a[end]);
                    lemma_operator_prefix(a, t, end);
                } else {
                    lemma_operator_behind(a, t);
                }
                assert(!plain(s, end));
                lemma_plain_end_is(s, i, end);
                assert(s.subrange(i, end) =~= a.subrange(i, end));
                assert forall|k: int| i <= k < end implies !is_quote(#[trigger] a[k]) by {
                    assert(plain(a, k));
                }
                lemma_closed_later(a, i, end);
                let run = Part { kind: RunKind::Unquoted, text: a.subrange(i, end) };
                lemma_scan_prefix(a, t, end, word.push(run));
            }
        }
    }
}

/// An operator is the same whatever stands in front of it.
proof fn lemma_operator_behind(a: Seq<char>, t: Seq<char>)
    requires
        t.len() > 0,
    ensures
        (a + t)[a.len() as int] == t[0],
        operator(a + t, a.len() as int) == operator(t, 0),
        plain(a + t, a.len() as int) == plain(t, 0),
{
    let s = a + t;
    let n = a.len() as int;
    assert(s[n] == t[0]);
    if t.len() > 1 {
        assert(s[n + 1] == t[1]);
    }
    assert(followed_by(s, n, '&') == followed_by(t, 0, '&'));
    assert(followed_by(s, n, '>') == followed_by(t, 0, '>'));
    assert(followed_by(s, n, '|') == followed_by(t, 0, '|'));
}

/// An operator is the same with something behind the text that breaks it off.
proof fn lemma_operator_prefix(a: Seq<char>, t: Seq<char>, i: int)
    requires
        0 <= i < a.len(),
        breaks_off(a, t),
    ensures
        operator(a + t, i) == operator(a, i),
        operator(a, i) is Some ==> 1 <= (operator(a, i)->0).1 && i + (operator(a, i)->0).1
            <= a.len(),
        operator(a, i) is Some ==> forall|k: int|
            i <= k < i + (operator(a, i)->0).1 ==> !is_quote(#[trigger] a[k]),
{
    let s = a + t;
    assert(s[i] == a[i]);
    if i + 1 < a.len() {
        assert(s[i + 1] == a[i + 1]);
    } else {
        assert(s[i + 1] == t[0]);
    }
}

proof fn lemma_after(first: Seq<Tok>, a: Seq<char>, s: Seq<char>, i: int)
    requires
        0 <= i,
        ({
            let (tokens, left) = scan(a, i, Seq::empty());
            scan(s, i, Seq::empty()) == after(tokens, scan(s, a.len() as int, left))
        }),
    ensures
        ({
            let (tokens, left) = after(first, scan(a, i, Seq::empty()));
            after(first, scan(s, i, Seq::empty())) == after(
                tokens,
                scan(s, a.len() as int, left),
            )
        }),
{
    let (tokens, left) = scan(a, i, Seq::empty());
    let rest = scan(s, a.len() as int, left);
    assert(first + (tokens + rest.0) =~= first + tokens + rest.0);
}

/// A text is scanned the same wherever it stands at the end.
proof fn lemma_scan_suffix(x: Seq<char>, b: Seq<char>, i: int, word: Seq<Part>)
    requires
        0 <= i <= b.len(),
    ensures
        scan(x + b, x.len() + i, word) == scan(b, i, word),
    decreases b.len() - i,
{
    let s = x + b;
    let m = x.len() as int;
    if i < b.len() {
        assert(s[m + i] == b[i]);
        assert forall|k: int| 0 <= k < b.len() implies operator(s, m + k) == operator(b, k) by {
            assert(s[m + k] == b[k]);
            if k + 1 < b.len() {
                assert(s[m + k + 1] == b[k + 1]);
            }
            assert(followed_by(s, m + k, '&') == followed_by(b, k, '&'));
            assert(followed_by(s, m + k, '>') == followed_by(b, k, '>'));
            assert(followed_by(s, m + k, '|') == followed_by(b, k, '|'));
        }
        if is_quote(b[i]) {
            let end = index_from(b, b[i], i + 1);
            lemma_index_from(b, b[i], i + 1);
            assert forall|k: int| m + i + 1 <= k < m + end implies s[k] != b[i] by {
                assert(s[k] == b[k - m]);
            }
            if end < b.len() {
                assert(s[m + end] == b[end]);
            }
            lemma_index_from_is(s, b[i], m + i + 1, m + end);
            assert(s.subrange(m + i + 1, m + end) =~= b.subrange(i + 1, end));
            let kind = RunKind::of_quote(b[i]);
            let run = Part { kind, text: b.subrange(i + 1, end) };
            lemma_scan_suffix(
                x,
                b,
                if end < b.len() {
                    end + 1
                } else {
                    end
                },
                absorbed(word, kind).push(run),
            );
        } else if is_blank(b[i]) {
            lemma_scan_suffix(x, b, i + 1, Seq::empty());
        } else if operator(b, i) is Some {
            assert(operator(s, m + i) == operator(b, i));
            let (op, width) = operator(b, i)->0;
            lemma_scan_suffix(x, b, i + width, Seq::empty());
        } else {
            assert(operator(s, m + i) == operator(b, i));
            let end = plain_end(b, i);
            lemma_plain_end(b, i);
            assert forall|k: int| m + i <= k < m + end implies plain(s, k) by {
                assert(plain(b, k - m));
                assert(s[k] == b[k - m]);
                assert(operator(s, m + (k - m)) == operator(b, k - m));
            }
            if end < b.len() {
                assert(s[m + end] == b[end]);
                assert(operator(s, m + end) == operator(b, end));
            }
            lemma_plain_end_is(s, m + i, m + end);
            assert(s.subrange(m + i, m + end) =~= b.subrange(i, end));
            let run = Part { kind: RunKind::Unquoted, text: b.subrange(i, end) };
            lemma_scan_suffix(x, b, end, word.push(run));
        }
    }
}

/// The tokens of two inputs around a `;`, or a newline outside quotes, are those
/// of the first, a `;`, and those of the second.
pub proof fn law_statements_lex_apart(a: Seq<char>, c: char, b: Seq<char>)
    requires
        quotes_closed(a, 0),
        c == ';' || c == '\n',
    ensures
        lexed(a + seq![c] + b) == lexed(a).drop_last().push(Tok::Semicolon) + lexed(b),
{
    let t = seq![c] + b;
    let s = a + seq![c] + b;
    let n = a.len() as int;
    assert(s =~= a + t);
    lemma_scan_prefix(a, t, 0, Seq::empty());
    let (tokens, left) = scan(a, 0, Seq::empty());
    assert(s[n] == c);
    assert(operator(s, n) == Some((Tok::Semicolon, 1int)));
    assert(s =~= (a + seq![c]) + b);
    lemma_scan_suffix(a + seq![c], b, 0, Seq::empty());
    let (more, last) = scan(b, 0, Seq::empty());
    assert(closed_by(left, Tok::Semicolon) == finished(left).push(Tok::Semicolon));
    assert(scan(s, n, left) == after(
        finished(left).push(Tok::Semicolon),
        scan(s, n + 1, Seq::empty()),
    ));
    assert(lexed(a).drop_last() =~= tokens + finished(left));
    assert(lexed(s) =~= lexed(a).drop_last().push(Tok::Semicolon) + lexed(b));
}

/// A newline outside quotes is as good as a `;`.
pub proof fn law_newline_is_a_semicolon(a: Seq<char>, b: Seq<char>)
    requires
        quotes_closed(a, 0),
    ensures
        lexed(a + seq!['\n'] + b) == lexed(a + seq![';'] + b),
{
    law_statements_lex_apart(a, '\n', b);
    law_statements_lex_apart(a, ';', b);
}

/// The tokens of two inputs around a blank are those of the first and those of
/// the second.
pub proof fn law_blank_separates(a: Seq<char>, c: char, b: Seq<char>)
    requires
        quotes_closed(a, 0),
        is_blank(c),
    ensures
        lexed(a + seq![c] + b) == lexed(a).drop_last() + lexed(b),
{
    let t = seq![c] + b;
    let s = a + seq![c] + b;
    let n = a.len() as int;
    assert(s =~= a + t);
    lemma_scan_prefix(a, t, 0, Seq::empty());
    let (tokens, left) = scan(a, 0, Seq::empty());
    assert(s[n] == c);
    assert(s =~= (a + seq![c]) + b);
    lemma_scan_suffix(a + seq![c], b, 0, Seq::empty());
    assert(scan(s, n, left) == after(finished(left), scan(s, n + 1, Seq::empty())));
    assert(lexed(a).drop_last() =~= tokens + finished(left));
    assert(lexed(s) =~= lexed(a).drop_last() + lexed(b));
}

proof fn lemma_closed_suffix(a: Seq<char>, b: Seq<char>, j: int)
    requires
        0 <= j <= b.len(),
    ensures
        quotes_closed(a + b, a.len() + j) == quotes_closed(b, j),
    decreases b.len() - j,
{
    let s = a + b;
    let m = a.len() as int;
    if j < b.len() {
        assert(s[m + j] == b[j]);
        if is_quote(b[j]) {
            let end = index_from(b, b[j], j + 1);
            lemma_index_from(b, b[j], j + 1);
            assert forall|k: int| m + j + 1 <= k < m + end implies s[k] != b[j] by {
                assert(s[k] == b[k - m]);
            }
            if end < b.len() {
                assert(s[m + end] == b[end]);
            }
            lemma_index_from_is(s, b[j], m + j + 1, m + end);
            if end < b.len() {
                lemma_closed_suffix(a, b, end + 1);
            }
        } else {
            lemma_closed_suffix(a, b, j + 1);
        }
    }
}

proof fn lemma_closed_through(a: Seq<char>, b: Seq<char>, i: int)
    requires
        0 <= i <= a.len(),
        quotes_closed(a, i),
        quotes_closed(b, 0),
    ensures
        quotes_closed(a + b, i),
    decreases a.len() - i,
{
    let s = a + b;
    if i == a.len() {
        lemma_closed_suffix(a, b, 0);
    } else {
        assert(s[i] == a[i]);
        if is_quote(a[i]) {
            let end = index_from(a, a[i], i + 1);
            lemma_index_from(a, a[i], i + 1);
            assert forall|k: int| i + 1 <= k < end implies s[k] != a[i] by {
                assert(s[k] == a[k]);
            }
            assert(s[end] == a[end]);
            lemma_index_from_is(s, a[i], i + 1, end);
            lemma_closed_through(a, b, end + 1);
        } else {
            lemma_closed_through(a, b, i + 1);
        }
    }
}

/// Two texts that close their quotes close them one behind the other.
pub proof fn lemma_closed_join(a: Seq<char>, b: Seq<char>)
    requires
        quotes_closed(a, 0),
        quotes_closed(b, 0),
    ensures
        quotes_closed(a + b, 0),
{
    lemma_closed_through(a, b, 0);
}

/// A text without quotes closes them all.
pub proof fn law_text_without_quotes_is_closed(s: Seq<char>, i: int)
    requires
        0 <= i <= s.len(),
        !s.contains('"'),
        !s.contains('\''),
    ensures
        quotes_closed(s, i),
    decreases s.len() - i,
{
    if i < s.len() {
        assert(s.contains(s[i]));
        law_text_without_quotes_is_closed(s, i + 1);
    }
}

// ---------------------------------------------------------------------
// Words
// ---------------------------------------------------------------------

/// Whether every character is ordinary word text wherever it stands.
pub open spec fn bare(s: Seq<char>) -> bool {
    forall|k: int| 0 <= k < s.len() ==> bare_char(#[trigger] s[k])
}

/// A character that is neither a quote nor a blank and starts no operator.
pub open spec fn bare_char(c: char) -> bool {
    !is_quote(c) && !is_blank(c) && c != ';' && c != '\n' && c != '&' && c != '|' && c != '>' && c
        != '<'
}

/// Bare text is one word of one unquoted part.
pub proof fn law_bare_text_is_one_word(s: Seq<char>)
    requires
        s.len() > 0,
        bare(s),
    ensures
        lexed(s) == seq![
            Tok::Word(seq![Part { kind: RunKind::Unquoted, text: s }]),
            Tok::Eof,
        ],
        quotes_closed(s, 0),
{
    let n = s.len() as int;
    assert forall|k: int| 0 <= k < n implies plain(s, k) by {
        assert(bare_char(s[k]));
    }
    assert(bare_char(s[0]));
    lemma_plain_end_is(s, 0, n);
    assert(s.subrange(0, n) =~= s);
    let word = seq![Part { kind: RunKind::Unquoted, text: s }];
    assert(Seq::<Part>::empty().push(word[0]) =~= word);
    assert(scan(s, n, word) == (Seq::<Tok>::empty(), word));
    assert(scan(s, 0, Seq::empty()) == (Seq::<Tok>::empty(), word));
    assert(lexed(s) =~= seq![Tok::Word(word), Tok::Eof]);
    lemma_bare_closed(s, 0);
}

proof fn lemma_bare_closed(s: Seq<char>, i: int)
    requires
        0 <= i <= s.len(),
        bare(s),
    ensures
        quotes_closed(s, i),
    decreases s.len() - i,
{
    if i < s.len() {
        assert(bare_char(s[i]));
        lemma_bare_closed(s, i + 1);
    }
}

/// Everything between two quotes of a kind is the text of one word, whatever
/// operators, blanks or other quotes it holds.
pub proof fn law_quoted_text_is_one_word(q: char, s: Seq<char>)
    requires
        is_quote(q),
        !s.contains(q),
    ensures
        lexed(seq![q] + s + seq![q]) == seq![
            Tok::Word(seq![Part { kind: RunKind::of_quote(q), text: s }]),
            Tok::Eof,
        ],
        quotes_closed(seq![q] + s + seq![q], 0),
{
    let all = seq![q] + s + seq![q];
    let n = all.len() as int;
    assert forall|k: int| 1 <= k < n - 1 implies all[k] != q by {
        assert(s.contains(s[k - 1]));
    }
    lemma_index_from_is(all, q, 1, n - 1);
    assert(all.subrange(1, n - 1) =~= s);
    let word = seq![Part { kind: RunKind::of_quote(q), text: s }];
    assert(Seq::<Part>::empty().push(word[0]) =~= word);
    assert(all[0] == q);
    assert(scan(all, n, word) == (Seq::<Tok>::empty(), word));
    assert(scan(all, 0, Seq::empty()) == (Seq::<Tok>::empty(), word));
    assert(lexed(all) =~= seq![Tok::Word(word), Tok::Eof]);
    assert(quotes_closed(all, n));
}

/// Blanks alone make no tokens but the end of input.
pub proof fn law_blanks_are_nothing(s: Seq<char>)
    requires
        forall|k: int| 0 <= k < s.len() ==> is_blank(#[trigger] s[k]),
    ensures
        lexed(s) == seq![Tok::Eof],
{
    lemma_blank_scan(s, 0);
    assert(lexed(s) =~= seq![Tok::Eof]);
}

proof fn lemma_blank_scan(s: Seq<char>, i: int)
    requires
        0 <= i <= s.len(),
        forall|k: int| 0 <= k < s.len() ==> is_blank(#[trigger] s[k]),
    ensures
        scan(s, i, Seq::empty()) == (Seq::<Tok>::empty(), Seq::<Part>::empty()),
    decreases s.len() - i,
{
    if i < s.len() {
        assert(is_blank(s[i]));
        lemma_blank_scan(s, i + 1);
        assert(Seq::<Tok>::empty() + Seq::<Tok>::empty() =~= Seq::empty());
    }
}

// ---------------------------------------------------------------------
// Words and operators as they are written
// ---------------------------------------------------------------------

/// A character that is neither a quote nor a blank nor part of any operator.
pub open spec fn ordinary(c: char) -> bool {
    c != '"' && c != '\'' && c != ' ' && c != '\t' && c != '\n' && c != ';' && c != '&' && c != '|'
        && c != '<' && c != '>'
}

/// How a part of a word is written: as it is, or between quotes of its kind.
pub open spec fn run_text(part: Part) -> Seq<char> {
    match part.kind {
        RunKind::Unquoted => part.text,
        RunKind::Single => seq!['\''] + part.text + seq!['\''],
        RunKind::Double => seq!['"'] + part.text + seq!['"'],
    }
}

/// How a word is written.
pub open spec fn word_text(word: Seq<Part>) -> Seq<char>
    decreases word.len(),
{
    if word.len() == 0 {
        Seq::empty()
    } else {
        run_text(word[0]) + word_text(word.skip(1))
    }
}

/// Whether a part can be written: ordinary characters outside quotes, and in quotes
/// any but the quote itself.
pub open spec fn can_be_written(part: Part) -> bool {
    match part.kind {
        RunKind::Unquoted => part.text.len() > 0 && forall|k: int|
            0 <= k < part.text.len() ==> ordinary(#[trigger] part.text[k]),
        RunKind::Single => !part.text.contains('\''),
        RunKind::Double => !part.text.contains('"'),
    }
}

/// Whether two parts stay apart when they are written one behind the other: not both
/// are outside quotes, and the first is not empty between quotes that the second
/// has too.
pub open spec fn stay_apart(a: Part, b: Part) -> bool {
    a.kind != b.kind || (a.kind != RunKind::Unquoted && a.text.len() > 0)
}

/// Whether a word can be written part by part.
pub open spec fn word_can_be_written(word: Seq<Part>) -> bool {
    &&& word.len() > 0
    &&& forall|k: int| 0 <= k < word.len() ==> can_be_written(#[trigger] word[k])
    &&& forall|k: int| 0 < k < word.len() ==> stay_apart(word[k - 1], #[trigger] word[k])
}

proof fn lemma_run_read(s: Seq<char>, i: int, part: Part, done: Seq<Part>)
    requires
        0 <= i,
        can_be_written(part),
        i + run_text(part).len() <= s.len(),
        forall|k: int|
            0 <= k < run_text(part).len() ==> s[i + k] == #[trigger] run_text(part)[k],
        done.len() > 0 ==> stay_apart(done.last(), part),
        part.kind == RunKind::Unquoted ==> {
            let e = i + run_text(part).len();
            e == s.len() || s[e] == '"' || s[e] == '\''
        },
    ensures
        scan(s, i, done) == scan(s, i + run_text(part).len(), done.push(part)),
{
    let t = run_text(part);
    let e = i + t.len();
    if part.kind == RunKind::Unquoted {
        assert forall|k: int| i <= k < e implies plain(s, k) by {
            assert(s[i + (k - i)] == t[k - i]);
            assert(ordinary(part.text[k - i]));
        }
        lemma_plain_end_is(s, i, e);
        assert(plain(s, i));
        assert(s.subrange(i, e) =~= part.text);
    } else {
        let q = t[0];
        assert(s[i + 0] == t[0]);
        assert(s[i + (t.len() - 1)] == t[t.len() - 1]);
        assert forall|k: int| i + 1 <= k < e - 1 implies s[k] != q by {
            assert(s[i + (k - i)] == t[k - i]);
            assert(t[k - i] == part.text[k - i - 1]);
            assert(part.text.contains(part.text[k - i - 1]));
        }
        lemma_index_from_is(s, q, i + 1, e - 1);
        assert(s.subrange(i + 1, e - 1) =~= part.text) by {
            assert forall|k: int| 0 <= k < part.text.len() implies s.subrange(i + 1, e - 1)[k]
                == part.text[k] by {
                assert(s[i + (k + 1)] == t[k + 1]);
            }
        }
        assert(absorbed(done, part.kind) == done);
        assert(Part { kind: part.kind, text: s.subrange(i + 1, e - 1) } == part);
    }
}

/// The parts of a word are read one after the other, up to the end or to a quote.
proof fn lemma_word_read(s: Seq<char>, i: int, word: Seq<Part>, done: Seq<Part>)
    requires
        0 <= i,
        i + word_text(word).len() <= s.len(),
        forall|k: int| 0 <= k < word_text(word).len() ==> s[i + k] == #[trigger] word_text(word)[k],
        ({
            let e = i + word_text(word).len();
            e == s.len() || s[e] == '"' || s[e] == '\''
        }),
        forall|k: int| 0 <= k < word.len() ==> can_be_written(#[trigger] word[k]),
        forall|k: int| 0 < k < word.len() ==> stay_apart(word[k - 1], #[trigger] word[k]),
        done.len() > 0 && word.len() > 0 ==> stay_apart(done.last(), word[0]),
    ensures
        scan(s, i, done) == scan(s, i + word_text(word).len(), done + word),
    decreases word.len(),
{
    if word.len() == 0 {
        assert(done + word =~= done);
    } else {
        let part = word[0];
        let rest = word.skip(1);
        let t = run_text(part);
        let all = word_text(word);
        assert(all == t + word_text(rest));
        assert forall|k: int| 0 <= k < t.len() implies s[i + k] == #[trigger] t[k] by {
            assert(all[k] == t[k]);
        }
        let e = i + t.len();
        assert forall|k: int| 0 <= k < word_text(rest).len() implies s[e + k]
            == #[trigger] word_text(rest)[k] by {
            assert(all[t.len() + k] == word_text(rest)[k]);
            assert(s[i + (t.len() + k)] == all[t.len() + k]);
        }
        assert(can_be_written(word[0]));
        if rest.len() > 0 {
            assert(rest[0] == word[1]);
            assert(stay_apart(word[1 - 1], word[1]));
            assert(can_be_written(word[1]));
            let u = run_text(rest[0]);
            assert(word_text(rest) == u + word_text(rest.skip(1)));
            if part.kind == RunKind::Unquoted {
                assert(word_text(rest)[0] == u[0]);
                assert(s[e + 0] == word_text(rest)[0]);
            }
        }
        lemma_run_read(s, i, part, done);
        assert forall|k: int| 0 <= k < rest.len() implies can_be_written(#[trigger] rest[k]) by {
            assert(rest[k] == word[k + 1]);
        }
        assert forall|k: int| 0 < k < rest.len() implies stay_apart(
            rest[k - 1],
            #[trigger] rest[k],
        ) by {
            assert(rest[k] == word[k + 1]);
            assert(stay_apart(word[(k + 1) - 1], word[k + 1]));
        }
        lemma_word_read(s, e, rest, done.push(part));
        assert(done.push(part) + rest =~= done + word);
    }
}

/// A word is read as it is written: part by part, each as it was quoted, with
/// nothing between them.
pub proof fn law_written_words_read_back(word: Seq<Part>)
    requires
        word_can_be_written(word),
    ensures
        lexed(word_text(word)) == seq![Tok::Word(word), Tok::Eof],
{
    let s = word_text(word);
    lemma_word_read(s, 0, word, Seq::empty());
    assert(Seq::<Part>::empty() + word =~= word);
    assert(scan(s, s.len() as int, word) == (Seq::<Tok>::empty(), word));
    assert(lexed(word_text(word)) =~= seq![Tok::Word(word), Tok::Eof]);
}

/// A quote that is not closed takes everything that follows it into the word that it
/// stands in, whatever that is.
pub proof fn law_open_quote_takes_the_rest(word: Seq<Part>, s: Seq<char>)
    requires
        word.len() == 0 || word_can_be_written(word),
    ensures
        !s.contains('"') && (word.len() > 0 ==> stay_apart(
            word.last(),
            Part { kind: RunKind::Double, text: s },
        )) ==> lexed(word_text(word) + seq!['"'] + s) == seq![
            Tok::Word(word.push(Part { kind: RunKind::Double, text: s })),
            Tok::Eof,
        ],
        !s.contains('\'') && (word.len() > 0 ==> stay_apart(
            word.last(),
            Part { kind: RunKind::Single, text: s },
        )) ==> lexed(word_text(word) + seq!['\''] + s) == seq![
            Tok::Word(word.push(Part { kind: RunKind::Single, text: s })),
            Tok::Eof,
        ],
{
    if !s.contains('"') && (word.len() > 0 ==> stay_apart(
        word.last(),
        Part { kind: RunKind::Double, text: s },
    )) {
        lemma_open_quote(word, '"', s);
    }
    if !s.contains('\'') && (word.len() > 0 ==> stay_apart(
        word.last(),
        Part { kind: RunKind::Single, text: s },
    )) {
        lemma_open_quote(word, '\'', s);
    }
}

proof fn lemma_open_quote(word: Seq<Part>, q: char, s: Seq<char>)
    requires
        word.len() == 0 || word_can_be_written(word),
        is_quote(q),
        !s.contains(q),
        word.len() > 0 ==> stay_apart(
            word.last(),
            Part { kind: RunKind::of_quote(q), text: s },
        ),
    ensures
        lexed(word_text(word) + seq![q] + s) == seq![
            Tok::Word(word.push(Part { kind: RunKind::of_quote(q), text: s })),
            Tok::Eof,
        ],
{
    let front = word_text(word);
    let all = front + seq![q] + s;
    let i = front.len() as int;
    let n = all.len() as int;
    let kind = RunKind::of_quote(q);
    let run = Part { kind, text: s };
    assert(all[i] == q);
    lemma_word_read(all, 0, word, Seq::empty());
    assert(Seq::<Part>::empty() + word =~= word);
    assert forall|k: int| i + 1 <= k < n implies all[k] != q by {
        assert(all[k] == s[k - i - 1]);
        assert(s.contains(s[k - i - 1]));
    }
    lemma_index_from_is(all, q, i + 1, n);
    assert(all.subrange(i + 1, n) =~= s);
    assert(absorbed(word, kind) == word);
    assert(scan(all, i, word) == scan(all, n, word.push(run)));
    assert(scan(all, n, word.push(run)) == (Seq::<Tok>::empty(), word.push(run)));
    assert(lexed(all) =~= seq![Tok::Word(word.push(run)), Tok::Eof]);
}

/// Empty quotes right in front of quotes of the same kind make no part of their own.
pub proof fn law_empty_quotes_are_absorbed(word: Seq<Part>, part: Part)
    requires
        word_can_be_written(word.push(part)),
        part.kind != RunKind::Unquoted,
    ensures
        lexed(word_text(word.push(Part { kind: part.kind, text: Seq::empty() })) + run_text(part))
            == seq![Tok::Word(word.push(part)), Tok::Eof],
{
    let q = run_text(part)[0];
    let empty = Part { kind: part.kind, text: Seq::empty() };
    let first = word.push(empty);
    let s = word_text(first) + run_text(part);
    let i = word_text(first).len() as int;
    let n = s.len() as int;
    assert(word.push(part)[word.len() as int] == part);
    assert(can_be_written(word.push(part)[word.len() as int]));
    assert forall|k: int| 0 <= k < first.len() implies can_be_written(#[trigger] first[k]) by {
        if k < word.len() {
            assert(first[k] == word.push(part)[k]);
        }
    }
    assert forall|k: int| 0 < k < first.len() implies stay_apart(
        first[k - 1],
        #[trigger] first[k],
    ) by {
        assert(stay_apart(word.push(part)[k - 1], word.push(part)[k]));
        assert(first[k - 1] == word.push(part)[k - 1]);
        if k < word.len() {
            assert(first[k] == word.push(part)[k]);
        }
    }
    assert(s[i] == q);
    lemma_word_read(s, 0, first, Seq::empty());
    assert(Seq::<Part>::empty() + first =~= first);
    let t = run_text(part);
    assert forall|k: int| i + 1 <= k < n - 1 implies s[k] != q by {
        assert(s[k] == t[k - i]);
        assert(t[k - i] == part.text[k - i - 1]);
        assert(part.text.contains(part.text[k - i - 1]));
    }
    assert(s[n - 1] == t[t.len() - 1]);
    lemma_index_from_is(s, q, i + 1, n - 1);
    assert(s.subrange(i + 1, n - 1) =~= part.text);
    assert(first.drop_last() =~= word);
    assert(absorbed(first, part.kind) == word);
    assert(scan(s, i, first) == scan(s, n, word.push(part)));
    assert(scan(s, n, word.push(part)) == (Seq::<Tok>::empty(), word.push(part)));
    assert(lexed(s) =~= seq![Tok::Word(word.push(part)), Tok::Eof]);
}

/// A space or a tab ends a word, and is nothing itself.
pub proof fn law_space_and_tab_separate(a: Seq<char>, b: Seq<char>)
    requires
        quotes_closed(a, 0),
    ensures
        lexed(a + seq![' '] + b) == lexed(a).drop_last() + lexed(b),
        lexed(a + seq!['\t'] + b) == lexed(a).drop_last() + lexed(b),
        lexed(Seq::empty()) == seq![Tok::Eof],
{
    law_blank_separates(a, ' ', b);
    law_blank_separates(a, '\t', b);
    assert(lexed(Seq::empty()) =~= seq![Tok::Eof]);
}

/// What a scan has in hand at position `i`: the word in progress ends where the
/// position is, and what stands in front of a run of ordinary text is not ordinary.
spec fn at_hand(a: Seq<char>, i: int, word: Seq<Part>) -> bool {
    &&& 0 <= i <= a.len()
    &&& word.len() > 0 ==> i > 0 && !separates(a[i - 1])
    &&& if word.len() > 0 && word.last().kind == RunKind::Unquoted {
        let text = word.last().text;
        &&& text.len() > 0
        &&& text.last() == a[i - 1]
        &&& i < a.len() ==> !plain(a, i)
        &&& text.len() == 1 && i >= 2 ==> !ordinary(a[i - 2])
        &&& text.len() == 1 && i >= 2 && is_quote(a[i - 2]) ==> word.len() > 1
    } else {
        &&& i > 0 ==> !ordinary(a[i - 1])
        &&& i > 0 && is_quote(a[i - 1]) ==> word.len() > 0
    }
}

proof fn lemma_at_hand(a: Seq<char>, i: int, word: Seq<Part>)
    requires
        at_hand(a, i, word),
        quotes_closed(a, i),
    ensures
        at_hand(a, a.len() as int, scan(a, i, word).1),
    decreases a.len() - i,
{
    if i < a.len() {
        if is_quote(a[i]) {
            let end = index_from(a, a[i], i + 1);
            lemma_index_from(a, a[i], i + 1);
            let kind = RunKind::of_quote(a[i]);
            let run = Part { kind, text: a.subrange(i + 1, end) };
            lemma_at_hand(a, end + 1, absorbed(word, kind).push(run));
        } else if is_blank(a[i]) {
            lemma_at_hand(a, i + 1, Seq::empty());
        } else if operator(a, i) is Some {
            let (op, width) = operator(a, i)->0;
            assert forall|k: int| i <= k < i + width implies !is_quote(#[trigger] a[k]) by {}
            lemma_closed_later(a, i, i + width);
            lemma_at_hand(a, i + width, Seq::empty());
        } else {
            let end = plain_end(a, i);
            lemma_plain_end(a, i);
            assert(plain(a, i));
            assert(plain(a, end - 1));
            assert forall|k: int| i <= k < end implies !is_quote(#[trigger] a[k]) by {
                assert(plain(a, k));
            }
            lemma_closed_later(a, i, end);
            let run = Part { kind: RunKind::Unquoted, text: a.subrange(i, end) };
            lemma_at_hand(a, end, word.push(run));
        }
    }
}

/// How an operator is written.
pub open spec fn operator_text(op: Tok) -> Seq<char> {
    match op {
        Tok::Semicolon => seq![';'],
        Tok::Pipe => seq!['|'],
        Tok::Or => seq!['|', '|'],
        Tok::And => seq!['&', '&'],
        Tok::RedirectIn => seq!['<'],
        Tok::RedirectOut => seq!['>'],
        Tok::RedirectAppend => seq!['>', '>'],
        Tok::RedirectErrOut => seq!['2', '>'],
        Tok::RedirectErrAppend => seq!['2', '>', '>'],
        Tok::RedirectBoth => seq!['&', '>'],
        _ => Seq::empty(),
    }
}

/// Whether an operator between `a` and `b` is read as it is written: its first
/// character makes no other operator of the last of `a`, and its last none of the
/// first of `b`; and a lone `2` in front of `>` belongs to that.
pub open spec fn operator_between(a: Seq<char>, op: Tok, b: Seq<char>) -> bool {
    &&& op is Semicolon || a.len() == 0 || (a.last() != '&' && a.last() != '|' && a.last() != '>')
    &&& op is Pipe && b.len() > 0 ==> b[0] != '|'
    &&& (op is RedirectOut || op is RedirectErrOut) && b.len() > 0 ==> b[0] != '>'
    &&& (op is RedirectOut || op is RedirectAppend) && a.len() > 0 ==> a.last() != '2' || (a.len()
        > 1 && (ordinary(a[a.len() - 2]) || a[a.len() - 2] == '"' || a[a.len() - 2] == '\''))
    &&& (op is RedirectErrOut || op is RedirectErrAppend) && a.len() > 0 ==> {
        ||| a.last() == ' '
        ||| a.last() == '\t'
        ||| a.last() == ';'
        ||| a.last() == '\n'
    }
}

/// The tokens of two inputs around an operator are those of the first, the operator
/// and those of the second.
pub proof fn law_operators_lex_apart(a: Seq<char>, op: Tok, b: Seq<char>)
    requires
        quotes_closed(a, 0),
        !(op is Word) && !(op is Eof),
        operator_between(a, op, b),
    ensures
        lexed(a + operator_text(op) + b) == lexed(a).drop_last() + seq![op] + lexed(b),
{
    if op is RedirectErrOut || op is RedirectErrAppend {
        lemma_error_operator(a, op, b);
    } else {
        let o = operator_text(op);
        let t = o + b;
        let s = a + o + b;
        let n = a.len() as int;
        let width = o.len() as int;
        assert(s =~= a + t);
        assert(t[0] == o[0]);
        if width == 2 {
            assert(t[1] == o[1]);
        } else if b.len() > 0 {
            assert(t[1] == b[0]);
        }
        assert(operator(t, 0) == Some((op, width)));
        lemma_operator_behind(a, t);
        lemma_scan_prefix(a, t, 0, Seq::empty());
        lemma_at_hand(a, 0, Seq::empty());
        let (tokens, left) = scan(a, 0, Seq::empty());
        if op is RedirectOut || op is RedirectAppend {
            if is_fd2(left) {
                reveal_strlit("2");
                assert(left.last() == left[0]);
                assert(left[0].text.last() == '2');
            }
        }
        assert(closed_by(left, op) == finished(left).push(op));
        assert(scan(s, n, left) == after(
            finished(left).push(op),
            scan(s, n + width, Seq::empty()),
        ));
        assert(s =~= (a + o) + b);
        lemma_scan_suffix(a + o, b, 0, Seq::empty());
        assert(lexed(a).drop_last() =~= tokens + finished(left));
        assert(lexed(s) =~= lexed(a).drop_last() + seq![op] + lexed(b));
    }
}

proof fn lemma_error_operator(a: Seq<char>, op: Tok, b: Seq<char>)
    requires
        quotes_closed(a, 0),
        op is RedirectErrOut || op is RedirectErrAppend,
        operator_between(a, op, b),
    ensures
        lexed(a + operator_text(op) + b) == lexed(a).drop_last() + seq![op] + lexed(b),
{
    let o = operator_text(op);
    let s = a + o + b;
    let n = a.len() as int;
    let none = Seq::<Part>::empty();
    lemma_at_hand(a, 0, none);
    let (tokens, left) = scan(a, 0, none);
    assert(left.len() == 0);
    assert(left =~= none);
    assert(s[n] == '2' && s[n + 1] == '>');
    if op is RedirectErrAppend {
        assert(s[n + 2] == '>');
    } else if b.len() > 0 {
        assert(s[n + 2] == b[0]);
    }
    lemma_scan_ends_apart(a, o + b);
    assert(s =~= a + (o + b));
    assert(plain(s, n));
    assert(!plain(s, n + 1));
    lemma_plain_end_is(s, n, n + 1);
    reveal_strlit("2");
    assert(s.subrange(n, n + 1) =~= "2"@);
    let two = none.push(Part { kind: RunKind::Unquoted, text: "2"@ });
    assert(scan(s, n, none) == scan(s, n + 1, two));
    let (plain_op, width) = operator(s, n + 1)->0;
    assert(1 + width == o.len());
    assert(closed_by(two, plain_op) == seq![op]);
    assert(scan(s, n + 1, two) == after(seq![op], scan(s, n + 1 + width, none)));
    assert(s =~= (a + o) + b);
    lemma_scan_suffix(a + o, b, 0, none);
    assert(finished(left) =~= Seq::empty());
    assert(lexed(a).drop_last() =~= tokens);
    assert(lexed(s) =~= lexed(a).drop_last() + seq![op] + lexed(b));
}

/// A text that is empty or ends in a separator is scanned as it would be alone,
/// whatever follows it.
proof fn lemma_scan_ends_apart(a: Seq<char>, t: Seq<char>)
    requires
        quotes_closed(a, 0),
        a.len() == 0 || separates(a.last()),
    ensures
        ({
            let (tokens, left) = scan(a, 0, Seq::empty());
            scan(a + t, 0, Seq::empty()) == after(tokens, scan(a + t, a.len() as int, left))
        }),
{
    let none = Seq::<Part>::empty();
    if a.len() == 0 {
        let rest = scan(a + t, 0, none);
        assert(scan(a, 0, none) == (Seq::<Tok>::empty(), none));
        assert(Seq::<Tok>::empty() + rest.0 =~= rest.0);
    } else {
        let c = a.last();
        let front = a.drop_last();
        let u = seq![c] + t;
        let n = front.len() as int;
        assert(a =~= front + seq![c]);
        assert(a + t =~= front + u);
        lemma_front_closed(front, c);
        lemma_scan_prefix(front, u, 0, none);
        lemma_scan_prefix(front, seq![c], 0, none);
        let (tokens, left) = scan(front, 0, none);
        assert((a + t)[n] == c);
        let cut = if is_blank(c) {
            finished(left)
        } else {
            closed_by(left, Tok::Semicolon)
        };
        assert(scan(a + t, n, left) == after(cut, scan(a + t, n + 1, none)));
        assert(scan(a, n, left) == after(cut, scan(a, n + 1, none)));
        assert(scan(a, n + 1, none) == (Seq::<Tok>::empty(), none));
        let rest = scan(a + t, n + 1, none);
        assert(cut + Seq::<Tok>::empty() =~= cut);
        assert(scan(a, 0, none) == (tokens + cut, none));
        assert(tokens + (cut + rest.0) =~= tokens + cut + rest.0);
    }
}

/// A text that closes its quotes and ends in a separator closes them before that.
proof fn lemma_front_closed(front: Seq<char>, c: char)
    requires
        quotes_closed(front + seq![c], 0),
        separates(c),
    ensures
        quotes_closed(front, 0),
{
    lemma_front_closed_from(front, c, 0);
}

proof fn lemma_front_closed_from(front: Seq<char>, c: char, i: int)
    requires
        0 <= i <= front.len(),
        quotes_closed(front + seq![c], i),
        separates(c),
    ensures
        quotes_closed(front, i),
    decreases front.len() - i,
{
    let s = front + seq![c];
    if i < front.len() {
        assert(s[i] == front[i]);
        if is_quote(front[i]) {
            let end = index_from(s, s[i], i + 1);
            lemma_index_from(s, s[i], i + 1);
            assert(s[end] == s[i]);
            assert(end < front.len());
            assert forall|k: int| i + 1 <= k < end implies front[k] != front[i] by {
                assert(s[k] == front[k]);
            }
            assert(front[end] == s[end]);
            lemma_index_from_is(front, front[i], i + 1, end);
            lemma_front_closed_from(front, c, end + 1);
        } else {
            lemma_front_closed_from(front, c, i + 1);
        }
    }
}

/// A word that is written part by part closes its quotes.
pub proof fn lemma_written_is_closed(word: Seq<Part>)
    requires
        forall|k: int| 0 <= k < word.len() ==> can_be_written(#[trigger] word[k]),
    ensures
        quotes_closed(word_text(word), 0),
    decreases word.len(),
{
    if word.len() > 0 {
        let part = word[0];
        let rest = word.skip(1);
        assert(can_be_written(word[0]));
        assert forall|k: int| 0 <= k < rest.len() implies can_be_written(#[trigger] rest[k]) by {
            assert(rest[k] == word[k + 1]);
        }
        lemma_written_is_closed(rest);
        match part.kind {
            RunKind::Unquoted => {
                assert forall|k: int| 0 <= k < part.text.len() implies bare_char(
                    #[trigger] part.text[k],
                ) by {
                    assert(ordinary(part.text[k]));
                }
                lemma_bare_closed(part.text, 0);
            },
            RunKind::Single => law_quoted_text_is_one_word('\'', part.text),
            RunKind::Double => law_quoted_text_is_one_word('"', part.text),
        }
        lemma_closed_join(run_text(part), word_text(rest));
    }
}

/// A lone `&` is ordinary text.
pub proof fn law_lone_ampersand_is_text(s: Seq<char>)
    requires
        s.len() > 0,
        forall|k: int| 0 <= k < s.len() ==> ordinary(#[trigger] s[k]) || s[k] == '&',
        forall|k: int| 0 < k < s.len() && s[k - 1] == '&' ==> #[trigger] s[k] != '&',
    ensures
        lexed(s) == seq![
            Tok::Word(seq![Part { kind: RunKind::Unquoted, text: s }]),
            Tok::Eof,
        ],
{
    let n = s.len() as int;
    assert forall|k: int| 0 <= k < n implies plain(s, k) by {
        assert(ordinary(s[k]) || s[k] == '&');
        if k + 1 < n {
            assert(ordinary(s[k + 1]) || s[k + 1] == '&');
            assert(s[(k + 1) - 1] == '&' ==> s[k + 1] != '&');
        }
    }
    lemma_plain_end_is(s, 0, n);
    assert(plain(s, 0));
    assert(s.subrange(0, n) =~= s);
    let word = seq![Part { kind: RunKind::Unquoted, text: s }];
    assert(Seq::<Part>::empty().push(word[0]) =~= word);
    assert(scan(s, n, word) == (Seq::<Tok>::empty(), word));
    assert(scan(s, 0, Seq::empty()) == (Seq::<Tok>::empty(), word));
    assert(lexed(s) =~= seq![Tok::Word(word), Tok::Eof]);
}

} // verus!
