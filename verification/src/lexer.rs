//! Turns raw input into a flat stream of tokens.

use vstd::prelude::*;

use crate::text::{index_from, lemma_index_from, lemma_index_from_is, same, to_chars};
use crate::word::{
    lemma_parts_push, lemma_tokens_push, parts_view, tokens_view, Part, RunKind, Tok, Token, Word,
    WordPart,
};

verus! {

broadcast use {lemma_parts_push, lemma_tokens_push};

// ---------------------------------------------------------------------
// What the token stream of an input is
// ---------------------------------------------------------------------

pub open spec fn is_quote(c: char) -> bool {
    c == '"' || c == '\''
}

pub open spec fn is_blank(c: char) -> bool {
    c == ' ' || c == '\t'
}

/// Whether the character after position `i` is `c`.
pub open spec fn followed_by(s: Seq<char>, i: int, c: char) -> bool {
    i + 1 < s.len() && s[i + 1] == c
}

/// The operator that starts at position `i`, with its width. A newline acts as
/// a `;`. A lone `&` is no operator.
pub open spec fn operator(s: Seq<char>, i: int) -> Option<(Tok, int)> {
    let c = s[i];
    if c == ';' || c == '\n' {
        Some((Tok::Semicolon, 1))
    } else if c == '&' && followed_by(s, i, '&') {
        Some((Tok::And, 2))
    } else if c == '&' && followed_by(s, i, '>') {
        Some((Tok::RedirectBoth, 2))
    } else if c == '|' && followed_by(s, i, '|') {
        Some((Tok::Or, 2))
    } else if c == '|' {
        Some((Tok::Pipe, 1))
    } else if c == '>' && followed_by(s, i, '>') {
        Some((Tok::RedirectAppend, 2))
    } else if c == '>' {
        Some((Tok::RedirectOut, 1))
    } else if c == '<' {
        Some((Tok::RedirectIn, 1))
    } else {
        None
    }
}

/// Whether the character at `i` is ordinary word text when no quote is open.
pub open spec fn plain(s: Seq<char>, i: int) -> bool {
    !is_quote(s[i]) && !is_blank(s[i]) && operator(s, i) is None
}

/// The end of the run of ordinary word text that starts at `i`.
pub open spec fn plain_end(s: Seq<char>, i: int) -> int
    decreases s.len() - i,
{
    if 0 <= i < s.len() && plain(s, i) {
        plain_end(s, i + 1)
    } else {
        i
    }
}

/// `word` when a quote of kind `kind` opens right behind it: an empty quoted
/// run is absorbed by a following run of the same kind (`"""a"` has the one
/// part `a`).
pub open spec fn absorbed(word: Seq<Part>, kind: RunKind) -> Seq<Part> {
    if word.len() > 0 && word.last().kind == kind && word.last().text.len() == 0 {
        word.drop_last()
    } else {
        word
    }
}

/// The tokens of a finished word: none when nothing was written.
pub open spec fn finished(word: Seq<Part>) -> Seq<Tok> {
    if word.len() == 0 {
        Seq::empty()
    } else {
        seq![Tok::Word(word)]
    }
}

/// Whether a word is exactly an unquoted `2`, which in front of `>` or `>>`
/// selects stderr.
pub open spec fn is_fd2(word: Seq<Part>) -> bool {
    word.len() == 1 && word[0].kind == RunKind::Unquoted && word[0].text == "2"@
}

/// The tokens of the word in front of operator `op`, and of `op` itself.
pub open spec fn closed_by(word: Seq<Part>, op: Tok) -> Seq<Tok> {
    if is_fd2(word) && op is RedirectOut {
        seq![Tok::RedirectErrOut]
    } else if is_fd2(word) && op is RedirectAppend {
        seq![Tok::RedirectErrAppend]
    } else {
        finished(word).push(op)
    }
}

/// `tokens` put in front of what a scan found.
pub open spec fn after(tokens: Seq<Tok>, scan: (Seq<Tok>, Seq<Part>)) -> (Seq<Tok>, Seq<Part>) {
    (tokens + scan.0, scan.1)
}

/// Scans `s` from position `i` to its end, with `word` the parts already read
/// of the word in progress: the tokens that were completed, and the word that
/// is still in progress at the end.
///
/// A quote runs to the next quote character of its own kind, or to the end of
/// the input when there is none, and everything in it is text.
pub open spec fn scan(s: Seq<char>, i: int, word: Seq<Part>) -> (Seq<Tok>, Seq<Part>)
    decreases s.len() - i,
    when 0 <= i
{
    if i >= s.len() {
        (Seq::empty(), word)
    } else if is_quote(s[i]) {
        let kind = RunKind::of_quote(s[i]);
        let end = index_from(s, s[i], i + 1);
        proof {
            lemma_index_from(s, s[i], i + 1);
        }
        let run = Part { kind, text: s.subrange(i + 1, end) };
        scan(
            s,
            if end < s.len() {
                end + 1
            } else {
                end
            },
            absorbed(word, kind).push(run),
        )
    } else if is_blank(s[i]) {
        after(finished(word), scan(s, i + 1, Seq::empty()))
    } else if operator(s, i) is Some {
        let (op, width) = operator(s, i)->0;
        after(closed_by(word, op), scan(s, i + width, Seq::empty()))
    } else {
        let end = plain_end(s, i);
        proof {
            lemma_plain_end(s, i);
        }
        let run = Part { kind: RunKind::Unquoted, text: s.subrange(i, end) };
        scan(s, end, word.push(run))
    }
}

/// The token stream of `s`.
pub open spec fn lexed(s: Seq<char>) -> Seq<Tok> {
    let (tokens, word) = scan(s, 0, Seq::empty());
    (tokens + finished(word)).push(Tok::Eof)
}

pub proof fn lemma_plain_end(s: Seq<char>, i: int)
    requires
        0 <= i <= s.len(),
    ensures
        i <= plain_end(s, i) <= s.len(),
        i < s.len() && plain(s, i) ==> i < plain_end(s, i),
        forall|k: int| i <= k < plain_end(s, i) ==> plain(s, k),
        plain_end(s, i) < s.len() ==> !plain(s, plain_end(s, i)),
    decreases s.len() - i,
{
    if i < s.len() && plain(s, i) {
        lemma_plain_end(s, i + 1);
    }
}

/// `plain_end` is the only position with these properties.
pub proof fn lemma_plain_end_is(s: Seq<char>, i: int, e: int)
    requires
        0 <= i <= e <= s.len(),
        forall|k: int| i <= k < e ==> plain(s, k),
        e < s.len() ==> !plain(s, e),
    ensures
        plain_end(s, i) == e,
    decreases e - i,
{
    if i < e {
        lemma_plain_end_is(s, i + 1, e);
    }
}

// ---------------------------------------------------------------------
// The lexer
// ---------------------------------------------------------------------

/// `parts` once the run `text` of kind `kind` is flushed onto it.
pub open spec fn flushed(
    parts: Seq<Part>,
    text: Seq<char>,
    kind: RunKind,
    explicit: bool,
) -> Seq<Part> {
    if text.len() > 0 || (explicit && kind != RunKind::Unquoted) {
        parts.push(Part { kind, text })
    } else {
        parts
    }
}

/// What the lexer has in hand at position `i`: the run in progress began at
/// `start`, behind the parts `word`, and the whole scan is what was emitted
/// followed by the scan from there.
pub open spec fn in_hand(
    s: Seq<char>,
    i: int,
    tokens: Seq<Tok>,
    parts: Seq<Part>,
    current: Seq<char>,
    kind: RunKind,
    explicit: bool,
    quote: Option<char>,
    start: int,
    word: Seq<Part>,
) -> bool {
    &&& 0 <= start <= i <= s.len()
    &&& scan(s, 0, Seq::empty()) == after(tokens, scan(s, start, word))
    &&& match quote {
        Some(q) => {
            &&& is_quote(q)
            &&& start < i
            &&& s[start] == q
            &&& forall|k: int| start < k < i ==> s[k] != q
            &&& kind == RunKind::of_quote(q)
            &&& explicit
            &&& current == s.subrange(start + 1, i)
            &&& parts == absorbed(word, kind)
        },
        None => if kind == RunKind::Unquoted {
            &&& !explicit
            &&& parts == word
            &&& start == i ==> parts.len() == 0
            &&& current == s.subrange(start, i)
            &&& forall|k: int| start <= k < i ==> plain(s, k)
        } else {
            &&& explicit
            &&& start == i
            &&& word == parts.push(Part { kind, text: current })
        },
    }
}

/// Between quotes, where the text run cannot go on, flushing it leaves the
/// scan at position `i`.
proof fn lemma_settle(
    s: Seq<char>,
    i: int,
    tokens: Seq<Tok>,
    parts: Seq<Part>,
    current: Seq<char>,
    kind: RunKind,
    explicit: bool,
    start: int,
    word: Seq<Part>,
)
    requires
        in_hand(s, i, tokens, parts, current, kind, explicit, None, start, word),
        i < s.len() ==> !plain(s, i),
    ensures
        scan(s, 0, Seq::empty()) == after(
            tokens,
            scan(s, i, flushed(parts, current, kind, explicit)),
        ),
{
    if kind == RunKind::Unquoted && start < i {
        lemma_plain_end_is(s, start, i);
        assert(plain(s, start));
        assert(scan(s, start, word) == scan(
            s,
            i,
            word.push(Part { kind: RunKind::Unquoted, text: s.subrange(start, i) }),
        ));
    }
}

/// The operator at position `i`, with its width.
fn operator_at(chars: &[char], i: usize) -> (r: Option<(Token, usize)>)
    requires
        i < chars@.len(),
    ensures
        r is Some == operator(chars@, i as int) is Some,
        r is Some ==> operator(chars@, i as int) == Some(((r->0).0@, (r->0).1 as int)),
        r is Some ==> i + (r->0).1 <= chars@.len(),
{
    let c: char = chars[i];
    let next: Option<char> = if i + 1 < chars.len() {
        Some(chars[i + 1])
    } else {
        None
    };
    if c == ';' || c == '\n' {
        Some((Token::Semicolon, 1))
    } else if c == '&' && next == Some('&') {
        Some((Token::And, 2))
    } else if c == '&' && next == Some('>') {
        Some((Token::RedirectBoth, 2))
    } else if c == '|' && next == Some('|') {
        Some((Token::Or, 2))
    } else if c == '|' {
        Some((Token::Pipe, 1))
    } else if c == '>' && next == Some('>') {
        Some((Token::RedirectAppend, 2))
    } else if c == '>' {
        Some((Token::RedirectOut, 1))
    } else if c == '<' {
        Some((Token::RedirectIn, 1))
    } else {
        None
    }
}

/// Whether the word in progress is exactly a bare, unquoted `2`, the prefix
/// that makes `>` and `>>` redirect stderr: `2>file` has it, `'2'>file` and
/// `12>file` do not.
fn is_stderr_fd_prefix(current: &str, run_kind: RunKind, word_parts: &[WordPart]) -> (r: bool)
    ensures
        r == (run_kind == RunKind::Unquoted && word_parts@.len() == 0 && current@ == "2"@),
{
    !run_kind.is_quoted() && word_parts.len() == 0 && same(current, "2")
}

/// Pushes the run in progress onto `parts` as the part that matches its kind,
/// and empties it. Only an explicitly quoted run is pushed when it is empty, so
/// that a deliberately empty argument can be told from a variable that expanded
/// to nothing.
fn flush_run(
    current: &mut String,
    kind: RunKind,
    explicit_quote: &mut bool,
    parts: &mut Vec<WordPart>,
)
    ensures
        final(current)@ == Seq::<char>::empty(),
        !*final(explicit_quote),
        parts_view(final(parts)@) == flushed(
            parts_view(old(parts)@),
            old(current)@,
            kind,
            *old(explicit_quote),
        ),
{
    if !current.as_str().is_empty() || (*explicit_quote && kind.is_quoted()) {
        let mut text: String = String::new();
        core::mem::swap(current, &mut text);
        parts.push(kind.into_part(text));
    }
    *explicit_quote = false;
}

/// Flushes the run in progress, then emits the accumulated parts as one word
/// token, if there are any. The next word starts out unquoted.
fn flush_word(
    current: &mut String,
    run_kind: &mut RunKind,
    explicit_quote: &mut bool,
    parts: &mut Vec<WordPart>,
    tokens: &mut Vec<Token>,
)
    ensures
        final(current)@ == Seq::<char>::empty(),
        *final(run_kind) == RunKind::Unquoted,
        !*final(explicit_quote),
        final(parts)@.len() == 0,
        tokens_view(final(tokens)@) == tokens_view(old(tokens)@) + finished(
            flushed(
                parts_view(old(parts)@),
                old(current)@,
                *old(run_kind),
                *old(explicit_quote),
            ),
        ),
{
    let ghost before = tokens_view(tokens@);
    flush_run(current, *run_kind, explicit_quote, parts);
    let ghost word = parts_view(parts@);
    if parts.len() > 0 {
        let mut taken: Vec<WordPart> = Vec::new();
        core::mem::swap(parts, &mut taken);
        tokens.push(Token::Word(Word { parts: taken }));
        assert(tokens_view(tokens@) =~= before + seq![Tok::Word(word)]);
    } else {
        assert(tokens_view(tokens@) =~= before + finished(word));
    }
    *run_kind = RunKind::Unquoted;
}

/// Turns raw input into a flat token stream in a single pass. Blanks separate
/// words but are not tokens. Both `'` and `"` open a quoted run, in which
/// blanks and operator characters are just text until the matching close quote;
/// an unmatched quote swallows the rest of the input. A bare newline separates
/// statements exactly as `;` does.
pub fn lex(input: &str) -> (tokens: Vec<Token>)
    ensures
        tokens_view(tokens@) == lexed(input@),
{
    let chars: Vec<char> = to_chars(input);
    let mut tokens: Vec<Token> = Vec::new();
    let mut current: String = String::new();
    let mut run_kind: RunKind = RunKind::Unquoted;
    let mut explicit_quote: bool = false;
    let mut word_parts: Vec<WordPart> = Vec::new();
    let mut quote_char: Option<char> = None;
    let mut i: usize = 0;
    let ghost s = input@;
    let ghost mut start: int = 0;
    let ghost mut word: Seq<Part> = Seq::empty();
    proof {
        assert(tokens_view(tokens@) =~= Seq::empty());
        assert(parts_view(word_parts@) =~= Seq::empty());
        assert(current@ =~= s.subrange(0, 0));
        assert(Seq::<Tok>::empty() + scan(s, 0, word).0 =~= scan(s, 0, word).0);
    }

    while i < chars.len()
        invariant
            chars@ == s,
            i <= s.len(),
            in_hand(
                s,
                i as int,
                tokens_view(tokens@),
                parts_view(word_parts@),
                current@,
                run_kind,
                explicit_quote,
                quote_char,
                start,
                word,
            ),
        decreases s.len() - i,
    {
        let c: char = chars[i];
        let ghost emitted = tokens_view(tokens@);
        let ghost held = flushed(parts_view(word_parts@), current@, run_kind, explicit_quote);

        if let Some(qc) = quote_char {
            if c == qc {
                proof {
                    lemma_index_from_is(s, qc, start + 1, i as int);
                    word = parts_view(word_parts@).push(
                        Part { kind: run_kind, text: current@ },
                    );
                    start = i + 1;
                }
                quote_char = None;
            } else {
                current.push(c);
                assert(current@ =~= s.subrange(start + 1, i + 1));
            }
            i = i + 1;
            continue;
        }
        if c == '"' || c == '\'' {
            proof {
                lemma_settle(
                    s,
                    i as int,
                    emitted,
                    parts_view(word_parts@),
                    current@,
                    run_kind,
                    explicit_quote,
                    start,
                    word,
                );
            }
            let kind: RunKind = RunKind::from_quote(c);
            if kind != run_kind || !current.as_str().is_empty() {
                flush_run(&mut current, run_kind, &mut explicit_quote, &mut word_parts);
            }
            run_kind = kind;
            explicit_quote = true;
            quote_char = Some(c);
            proof {
                assert(parts_view(word_parts@) =~= absorbed(held, kind));
                assert(current@ =~= s.subrange(i + 1, i + 1));
                word = held;
                start = i as int;
            }
            i = i + 1;
        } else if c == ' ' || c == '\t' {
            proof {
                lemma_settle(
                    s,
                    i as int,
                    emitted,
                    parts_view(word_parts@),
                    current@,
                    run_kind,
                    explicit_quote,
                    start,
                    word,
                );
            }
            flush_word(
                &mut current,
                &mut run_kind,
                &mut explicit_quote,
                &mut word_parts,
                &mut tokens,
            );
            proof {
                let rest = scan(s, i + 1, Seq::empty());
                assert(emitted + (finished(held) + rest.0) =~= emitted + finished(held) + rest.0);
                assert(parts_view(word_parts@) =~= Seq::empty());
                assert(current@ =~= s.subrange(i + 1, i + 1));
                word = Seq::empty();
                start = i + 1;
            }
            i = i + 1;
        } else {
            match operator_at(&chars, i) {
                Some((op, width)) => {
                    proof {
                        lemma_settle(
                            s,
                            i as int,
                            emitted,
                            parts_view(word_parts@),
                            current@,
                            run_kind,
                            explicit_quote,
                            start,
                            word,
                        );
                    }
                    let prefixed: bool = is_stderr_fd_prefix(&current, run_kind, &word_parts);
                    assert(prefixed == is_fd2(held)) by {
                        reveal_strlit("2");
                    }
                    match op {
                        Token::RedirectOut if prefixed => {
                            current = String::new();
                            tokens.push(Token::RedirectErrOut);
                        },
                        Token::RedirectAppend if prefixed => {
                            current = String::new();
                            tokens.push(Token::RedirectErrAppend);
                        },
                        _ => {
                            flush_word(
                                &mut current,
                                &mut run_kind,
                                &mut explicit_quote,
                                &mut word_parts,
                                &mut tokens,
                            );
                            tokens.push(op);
                        },
                    }
                    proof {
                        let rest = scan(s, i + width, Seq::empty());
                        assert(tokens_view(tokens@) =~= emitted + closed_by(held, op@));
                        assert(emitted + (closed_by(held, op@) + rest.0) =~= emitted + closed_by(
                            held,
                            op@,
                        ) + rest.0);
                        assert(parts_view(word_parts@) =~= Seq::empty());
                        assert(current@ =~= s.subrange(i + width, i + width));
                        word = Seq::empty();
                        start = i + width;
                    }
                    i = i + width;
                },
                None => {
                    if run_kind.is_quoted() {
                        flush_run(&mut current, run_kind, &mut explicit_quote, &mut word_parts);
                        run_kind = RunKind::Unquoted;
                    }
                    current.push(c);
                    assert(current@ =~= s.subrange(start, i + 1));
                    i = i + 1;
                },
            }
        }
    }

    let ghost emitted = tokens_view(tokens@);
    let ghost held = flushed(parts_view(word_parts@), current@, run_kind, explicit_quote);
    proof {
        match quote_char {
            Some(q) => {
                lemma_index_from_is(s, q, start + 1, i as int);
                assert(held == absorbed(word, run_kind).push(
                    Part { kind: run_kind, text: s.subrange(start + 1, i as int) },
                ));
                assert(scan(s, start, word) == scan(s, i as int, held));
            },
            None => {
                lemma_settle(
                    s,
                    i as int,
                    emitted,
                    parts_view(word_parts@),
                    current@,
                    run_kind,
                    explicit_quote,
                    start,
                    word,
                );
            },
        }
        assert(emitted + Seq::<Tok>::empty() =~= emitted);
    }
    flush_word(
        &mut current,
        &mut run_kind,
        &mut explicit_quote,
        &mut word_parts,
        &mut tokens,
    );
    tokens.push(Token::Eof);
    tokens
}

} // verus!
