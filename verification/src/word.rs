//! Words and tokens: what the lexer produces.

use vstd::prelude::*;

use crate::text::same;

verus! {

/// How a run of text was quoted. The kinds never merge with each other even
/// when they hold the same text: the boundaries between parts are the quote
/// boundaries, which lets variable expansion and globbing treat each run by its
/// own rules.
#[derive(Debug, Clone, Copy, PartialEq, Eq, Structural)]
pub enum RunKind {
    /// Outside any quotes.
    Unquoted,
    /// Inside single quotes.
    Single,
    /// Inside double quotes.
    Double,
}

impl RunKind {
    /// The kind of run that the quote character `qc` opens.
    pub open spec fn of_quote(qc: char) -> RunKind {
        if qc == '\'' {
            RunKind::Single
        } else {
            RunKind::Double
        }
    }

    pub fn from_quote(qc: char) -> (r: RunKind)
        ensures
            r == RunKind::of_quote(qc),
    {
        if qc == '\'' {
            RunKind::Single
        } else {
            RunKind::Double
        }
    }

    /// The word part of this kind that holds `text`.
    pub fn into_part(self, text: String) -> (r: WordPart)
        ensures
            r@ == (Part { kind: self, text: text@ }),
    {
        match self {
            RunKind::Single => WordPart::Literal(text),
            RunKind::Double => WordPart::DoubleQuoted(text),
            RunKind::Unquoted => WordPart::Expandable(text),
        }
    }

    pub fn is_quoted(self) -> (r: bool)
        ensures
            r == (self != RunKind::Unquoted),
    {
        match self {
            RunKind::Unquoted => false,
            _ => true,
        }
    }
}

/// A run of text and how it was quoted: the model of a [`WordPart`].
#[verifier::ext_equal]
pub struct Part {
    pub kind: RunKind,
    pub text: Seq<char>,
}

/// One piece of a word, tagged with how much special processing applies to it.
/// A word splits into several parts wherever the treatment changes mid-word
/// (`'abc'def` splits; plain `abcdef` does not).
///
/// There are three kinds because variable expansion and filename globbing
/// disagree about double quotes: `$VAR` expands inside them, but `*` does not
/// act as a wildcard there.
#[derive(Debug, PartialEq, Eq)]
pub enum WordPart {
    /// From inside single quotes. Never variable-expanded, never glob-active.
    Literal(String),
    /// Unquoted text. Variable-expanded and glob-active (the characters that a
    /// substitution produces count here too).
    Expandable(String),
    /// From inside double quotes. Variable-expanded, but glob-inert.
    DoubleQuoted(String),
}

impl View for WordPart {
    type V = Part;

    open spec fn view(&self) -> Part {
        match self {
            WordPart::Literal(s) => Part { kind: RunKind::Single, text: s@ },
            WordPart::Expandable(s) => Part { kind: RunKind::Unquoted, text: s@ },
            WordPart::DoubleQuoted(s) => Part { kind: RunKind::Double, text: s@ },
        }
    }
}

impl WordPart {
    pub fn as_str(&self) -> (r: &str)
        ensures
            r@ == self@.text,
    {
        match self {
            WordPart::Literal(s) => s.as_str(),
            WordPart::Expandable(s) => s.as_str(),
            WordPart::DoubleQuoted(s) => s.as_str(),
        }
    }

    /// Whether this part was written outside quotes.
    pub fn is_expandable(&self) -> (r: bool)
        ensures
            r == (self@.kind == RunKind::Unquoted),
    {
        match self {
            WordPart::Expandable(_) => true,
            _ => false,
        }
    }
}

impl Clone for WordPart {
    fn clone(&self) -> (r: Self)
        ensures
            r@ == self@,
    {
        match self {
            WordPart::Literal(s) => WordPart::Literal(s.clone()),
            WordPart::Expandable(s) => WordPart::Expandable(s.clone()),
            WordPart::DoubleQuoted(s) => WordPart::DoubleQuoted(s.clone()),
        }
    }
}

/// The models of a run of word parts.
pub open spec fn parts_view(parts: Seq<WordPart>) -> Seq<Part> {
    parts.map_values(|p: WordPart| p@)
}

pub broadcast proof fn lemma_parts_push(v: Seq<WordPart>, x: WordPart)
    ensures
        #[trigger] parts_view(v.push(x)) == parts_view(v).push(x@),
{
    assert(parts_view(v.push(x)) =~= parts_view(v).push(x@));
}

/// A word: a command name, argument, or redirect target, as a sequence of
/// quote-tagged parts.
#[derive(Debug, PartialEq, Eq)]
pub struct Word {
    pub parts: Vec<WordPart>,
}

impl View for Word {
    type V = Seq<Part>;

    open spec fn view(&self) -> Seq<Part> {
        parts_view(self.parts@)
    }
}

impl Clone for Word {
    fn clone(&self) -> (r: Self)
        ensures
            r@ == self@,
    {
        broadcast use lemma_parts_push;

        let mut parts: Vec<WordPart> = Vec::new();
        let mut i: usize = 0;
        while i < self.parts.len()
            invariant
                i <= self.parts@.len(),
                parts_view(parts@) == self@.take(i as int),
            decreases self.parts@.len() - i,
        {
            let ghost done = parts_view(parts@);
            parts.push(self.parts[i].clone());
            assert(parts_view(parts@) == done.push(self@[i as int]));
            i = i + 1;
            assert(parts_view(parts@) =~= self@.take(i as int));
        }
        assert(self@.take(i as int) =~= self@);
        Word { parts }
    }
}

/// All the text of a word, whatever its quoting.
pub open spec fn text_of(word: Seq<Part>) -> Seq<char>
    decreases word.len(),
{
    if word.len() == 0 {
        Seq::empty()
    } else {
        text_of(word.drop_last()) + word.last().text
    }
}

/// The models of a run of words.
pub open spec fn words_view(words: Seq<Word>) -> Seq<Seq<Part>> {
    words.map_values(|w: Word| w@)
}

pub broadcast proof fn lemma_words_push(v: Seq<Word>, x: Word)
    ensures
        #[trigger] words_view(v.push(x)) == words_view(v).push(x@),
{
    assert(words_view(v.push(x)) =~= words_view(v).push(x@));
}

impl Word {
    /// Flattens all parts into one plain string, ignoring how they were quoted.
    /// This is what any shell logic that just wants "the text of this word"
    /// uses: command names, alias lookup, path checks.
    pub fn text(&self) -> (r: String)
        ensures
            r@ == text_of(self@),
    {
        let mut out: String = String::new();
        let mut i: usize = 0;
        while i < self.parts.len()
            invariant
                i <= self.parts@.len(),
                out@ == text_of(self@.take(i as int)),
            decreases self.parts@.len() - i,
        {
            out.append(self.parts[i].as_str());
            i = i + 1;
            proof {
                let t = self@.take(i as int);
                assert(t.drop_last() =~= self@.take(i - 1));
                assert(t.last() == self.parts@[i - 1]@);
            }
        }
        assert(self@.take(i as int) =~= self@);
        out
    }

    /// Whether the text of this word is exactly `s`.
    pub fn reads(&self, s: &str) -> (r: bool)
        ensures
            r == (text_of(self@) == s@),
    {
        same(&self.text(), s)
    }
}

/// The words `words[from..]`, copied.
pub fn copy_words(words: &[Word], from: usize) -> (r: Vec<Word>)
    requires
        from <= words@.len(),
    ensures
        words_view(r@) == words_view(words@).skip(from as int),
{
    broadcast use lemma_words_push;

    let mut out: Vec<Word> = Vec::new();
    let mut i: usize = from;
    while i < words.len()
        invariant
            from <= i <= words@.len(),
            words_view(out@) == words_view(words@).subrange(from as int, i as int),
        decreases words@.len() - i,
    {
        let ghost done = words_view(out@);
        out.push(words[i].clone());
        assert(words_view(out@) == done.push(words_view(words@)[i as int]));
        i = i + 1;
        assert(words_view(out@) =~= words_view(words@).subrange(from as int, i as int));
    }
    out
}

/// A single lexical token.
#[derive(Debug, PartialEq, Eq)]
pub enum Token {
    /// A word: a command name, argument, or filename.
    Word(Word),
    /// `|`
    Pipe,
    /// `&&`
    And,
    /// `||`
    Or,
    /// `;`
    Semicolon,
    /// `<`
    RedirectIn,
    /// `>`
    RedirectOut,
    /// `>>`
    RedirectAppend,
    /// `2>` (only stderr is recognized as a prefix)
    RedirectErrOut,
    /// `2>>`
    RedirectErrAppend,
    /// `&>` (both stdout and stderr to the same target)
    RedirectBoth,
    /// Marks the end of input. Every token stream ends with exactly one of
    /// these.
    Eof,
}

/// The model of a [`Token`].
#[verifier::ext_equal]
pub enum Tok {
    Word(Seq<Part>),
    Pipe,
    And,
    Or,
    Semicolon,
    RedirectIn,
    RedirectOut,
    RedirectAppend,
    RedirectErrOut,
    RedirectErrAppend,
    RedirectBoth,
    Eof,
}

impl View for Token {
    type V = Tok;

    open spec fn view(&self) -> Tok {
        match self {
            Token::Word(w) => Tok::Word(w@),
            Token::Pipe => Tok::Pipe,
            Token::And => Tok::And,
            Token::Or => Tok::Or,
            Token::Semicolon => Tok::Semicolon,
            Token::RedirectIn => Tok::RedirectIn,
            Token::RedirectOut => Tok::RedirectOut,
            Token::RedirectAppend => Tok::RedirectAppend,
            Token::RedirectErrOut => Tok::RedirectErrOut,
            Token::RedirectErrAppend => Tok::RedirectErrAppend,
            Token::RedirectBoth => Tok::RedirectBoth,
            Token::Eof => Tok::Eof,
        }
    }
}

impl Clone for Token {
    fn clone(&self) -> (r: Self)
        ensures
            r@ == self@,
    {
        match self {
            Token::Word(w) => Token::Word(w.clone()),
            Token::Pipe => Token::Pipe,
            Token::And => Token::And,
            Token::Or => Token::Or,
            Token::Semicolon => Token::Semicolon,
            Token::RedirectIn => Token::RedirectIn,
            Token::RedirectOut => Token::RedirectOut,
            Token::RedirectAppend => Token::RedirectAppend,
            Token::RedirectErrOut => Token::RedirectErrOut,
            Token::RedirectErrAppend => Token::RedirectErrAppend,
            Token::RedirectBoth => Token::RedirectBoth,
            Token::Eof => Token::Eof,
        }
    }
}

/// The models of a run of tokens.
pub open spec fn tokens_view(tokens: Seq<Token>) -> Seq<Tok> {
    tokens.map_values(|t: Token| t@)
}

pub broadcast proof fn lemma_tokens_push(v: Seq<Token>, x: Token)
    ensures
        #[trigger] tokens_view(v.push(x)) == tokens_view(v).push(x@),
{
    assert(tokens_view(v.push(x)) =~= tokens_view(v).push(x@));
}

/// The text of a word is that of its parts, one behind the other, however they were
/// quoted.
pub proof fn law_text_ignores_quotes(a: Seq<Part>, b: Seq<Part>, part: Part)
    ensures
        text_of(Seq::empty()) == Seq::<char>::empty(),
        text_of(seq![part]) == part.text,
        text_of(a + b) == text_of(a) + text_of(b),
    decreases b.len(),
{
    let one = seq![part];
    assert(one.drop_last() =~= Seq::empty());
    assert(text_of(one.drop_last()) + part.text =~= part.text);
    if b.len() == 0 {
        assert(a + b =~= a);
        assert(text_of(a) + text_of(b) =~= text_of(a));
    } else {
        law_text_ignores_quotes(a, b.drop_last(), part);
        assert((a + b).drop_last() =~= a + b.drop_last());
        assert(text_of(a + b) =~= text_of(a) + text_of(b));
    }
}

/// A `'` opens a run in single quotes, and a `"` one in double quotes.
pub proof fn law_quotes_open_their_kind()
    ensures
        RunKind::of_quote('\'') == RunKind::Single,
        RunKind::of_quote('"') == RunKind::Double,
{
}

} // verus!
