//! Plain text: characters, trimming, lines and joining.

use vstd::prelude::*;

verus! {

/// `String::push` appends one character to the end of the string and changes
/// nothing else.
pub assume_specification[ String::push ](s: &mut String, c: char)
    ensures
        final(s)@ == old(s)@.push(c),
;

// ---------------------------------------------------------------------
// Characters and strings
// ---------------------------------------------------------------------

/// The characters of `s`, in order.
pub fn to_chars(s: &str) -> (r: Vec<char>)
    ensures
        r@ == s@,
{
    let mut v: Vec<char> = Vec::new();
    for c in it: s.chars()
        invariant
            v@ == it.seq().take(it.index()),
            it.seq() == s@,
    {
        v.push(c);
    }
    v
}

/// The string made of `chars[from..to]`.
pub fn slice_text(chars: &[char], from: usize, to: usize) -> (r: String)
    requires
        from <= to <= chars@.len(),
    ensures
        r@ == chars@.subrange(from as int, to as int),
{
    let mut out: String = String::new();
    let mut i: usize = from;
    while i < to
        invariant
            from <= i <= to <= chars@.len(),
            out@ == chars@.subrange(from as int, i as int),
        decreases to - i,
    {
        out.push(chars[i]);
        i = i + 1;
        assert(out@ =~= chars@.subrange(from as int, i as int));
    }
    out
}

/// Whether two strings hold the same characters.
pub fn same(a: &str, b: &str) -> (r: bool)
    ensures
        r == (a@ == b@),
{
    a.to_owned() == b.to_owned()
}

/// The position of the first `c` at or after `i`, or the length of `s` when
/// there is none.
pub open spec fn index_from(s: Seq<char>, c: char, i: int) -> int
    decreases s.len() - i,
{
    if i >= s.len() {
        s.len() as int
    } else if s[i] == c {
        i
    } else {
        index_from(s, c, i + 1)
    }
}

pub proof fn lemma_index_from(s: Seq<char>, c: char, i: int)
    requires
        0 <= i <= s.len(),
    ensures
        i <= index_from(s, c, i) <= s.len(),
        index_from(s, c, i) < s.len() ==> s[index_from(s, c, i)] == c,
        forall|k: int| i <= k < index_from(s, c, i) ==> s[k] != c,
    decreases s.len() - i,
{
    if i < s.len() && s[i] != c {
        lemma_index_from(s, c, i + 1);
    }
}

/// `index_from` is the only position with these properties.
pub proof fn lemma_index_from_is(s: Seq<char>, c: char, i: int, e: int)
    requires
        0 <= i <= e <= s.len(),
        forall|k: int| i <= k < e ==> s[k] != c,
        e < s.len() ==> s[e] == c,
    ensures
        index_from(s, c, i) == e,
    decreases e - i,
{
    if i < e {
        lemma_index_from_is(s, c, i + 1, e);
    }
}

/// Finds the first `c` at or after `from`; the length when there is none.
pub fn find_from(chars: &[char], c: char, from: usize) -> (r: usize)
    requires
        from <= chars@.len(),
    ensures
        r == index_from(chars@, c, from as int),
        from <= r <= chars@.len(),
{
    let mut i: usize = from;
    while i < chars.len() && chars[i] != c
        invariant
            from <= i <= chars@.len(),
            index_from(chars@, c, i as int) == index_from(chars@, c, from as int),
        decreases chars@.len() - i,
    {
        i = i + 1;
    }
    proof {
        lemma_index_from(chars@, c, from as int);
    }
    i
}

// ---------------------------------------------------------------------
// White space
// ---------------------------------------------------------------------

/// The Unicode `White_Space` property.
pub open spec fn white(c: char) -> bool {
    ||| '\u{9}' <= c <= '\u{d}'
    ||| c == ' '
    ||| c == '\u{85}'
    ||| c == '\u{a0}'
    ||| c == '\u{1680}'
    ||| '\u{2000}' <= c <= '\u{200a}'
    ||| c == '\u{2028}'
    ||| c == '\u{2029}'
    ||| c == '\u{202f}'
    ||| c == '\u{205f}'
    ||| c == '\u{3000}'
}

pub fn is_white(c: char) -> (r: bool)
    ensures
        r == white(c),
{
    ('\u{9}' <= c && c <= '\u{d}') || c == ' ' || c == '\u{85}' || c == '\u{a0}' || c == '\u{1680}'
        || ('\u{2000}' <= c && c <= '\u{200a}') || c == '\u{2028}' || c == '\u{2029}' || c
        == '\u{202f}' || c == '\u{205f}' || c == '\u{3000}'
}

/// The position of the first character of `s` at or after `i` that is not
/// white space, or the length of `s`.
pub open spec fn solid_from(s: Seq<char>, i: int) -> int
    decreases s.len() - i,
{
    if i >= s.len() {
        s.len() as int
    } else if white(s[i]) {
        solid_from(s, i + 1)
    } else {
        i
    }
}

/// The end of `s[..j]` once trailing white space is cut off.
pub open spec fn solid_to(s: Seq<char>, j: int) -> int
    decreases j,
{
    if j > 0 && white(s[j - 1]) {
        solid_to(s, j - 1)
    } else {
        j
    }
}

/// `s` without the white space at its two ends.
pub open spec fn trimmed(s: Seq<char>) -> Seq<char> {
    let from = solid_from(s, 0);
    let to = solid_to(s, s.len() as int);
    if from <= to {
        s.subrange(from, to)
    } else {
        Seq::empty()
    }
}

pub proof fn lemma_solid(s: Seq<char>, i: int)
    requires
        0 <= i <= s.len(),
    ensures
        i <= solid_from(s, i) <= s.len(),
        solid_from(s, i) < s.len() ==> !white(s[solid_from(s, i)]),
        forall|k: int| i <= k < solid_from(s, i) ==> white(s[k]),
    decreases s.len() - i,
{
    if i < s.len() && white(s[i]) {
        lemma_solid(s, i + 1);
    }
}

pub proof fn lemma_solid_to(s: Seq<char>, j: int)
    requires
        0 <= j <= s.len(),
    ensures
        0 <= solid_to(s, j) <= j,
        solid_to(s, j) > 0 ==> !white(s[solid_to(s, j) - 1]),
        forall|k: int| solid_to(s, j) <= k < j ==> white(s[k]),
    decreases j,
{
    if j > 0 && white(s[j - 1]) {
        lemma_solid_to(s, j - 1);
    }
}

/// What is trimmed stays as it is when it is trimmed again.
pub proof fn lemma_trimmed_twice(s: Seq<char>)
    ensures
        trimmed(trimmed(s)) == trimmed(s),
{
    lemma_solid(s, 0);
    lemma_solid_to(s, s.len() as int);
    let t = trimmed(s);
    let from = solid_from(s, 0);
    let to = solid_to(s, s.len() as int);
    if t.len() > 0 {
        assert(from < to);
        assert(t[0] == s[from]);
        assert(t.last() == s[to - 1]);
        assert(t.subrange(0, t.len() as int) =~= t);
    } else {
        assert(t =~= Seq::empty());
    }
}

/// Cuts the white space off both ends.
pub fn trim_chars(chars: &[char]) -> (r: String)
    ensures
        r@ == trimmed(chars@),
{
    let n: usize = chars.len();
    let mut i: usize = 0;
    while i < n && is_white(chars[i])
        invariant
            i <= n == chars@.len(),
            solid_from(chars@, i as int) == solid_from(chars@, 0),
        decreases n - i,
    {
        i = i + 1;
    }
    let mut j: usize = n;
    while j > 0 && is_white(chars[j - 1])
        invariant
            j <= n == chars@.len(),
            solid_to(chars@, j as int) == solid_to(chars@, n as int),
        decreases j,
    {
        j = j - 1;
    }
    if i <= j {
        slice_text(chars, i, j)
    } else {
        String::new()
    }
}

/// `s` without the white space at its two ends.
pub fn trim(s: &str) -> (r: String)
    ensures
        r@ == trimmed(s@),
{
    let chars: Vec<char> = to_chars(s);
    trim_chars(&chars)
}

/// The first word of `s`: what stands between its leading white space and the
/// next white space. Nothing when `s` is all white space.
pub open spec fn first_word(s: Seq<char>) -> Option<Seq<char>> {
    let from = solid_from(s, 0);
    if from < s.len() {
        Some(s.subrange(from, white_from(s, from)))
    } else {
        None
    }
}

/// The position of the first white space of `s` at or after `i`, or the length.
pub open spec fn white_from(s: Seq<char>, i: int) -> int
    decreases s.len() - i,
{
    if i >= s.len() {
        s.len() as int
    } else if white(s[i]) {
        i
    } else {
        white_from(s, i + 1)
    }
}

pub fn first_word_of(s: &str) -> (r: Option<String>)
    ensures
        r is Some == first_word(s@) is Some,
        r is Some ==> r->0@ == first_word(s@)->0,
{
    let chars: Vec<char> = to_chars(s);
    let n: usize = chars.len();
    let mut i: usize = 0;
    while i < n && is_white(chars[i])
        invariant
            i <= n == chars@.len(),
            solid_from(chars@, i as int) == solid_from(chars@, 0),
        decreases n - i,
    {
        i = i + 1;
    }
    if i == n {
        return None;
    }
    let mut j: usize = i;
    while j < n && !is_white(chars[j])
        invariant
            i <= j <= n == chars@.len(),
            white_from(chars@, j as int) == white_from(chars@, i as int),
        decreases n - j,
    {
        j = j + 1;
    }
    Some(slice_text(&chars, i, j))
}

// ---------------------------------------------------------------------
// Lines and joining
// ---------------------------------------------------------------------

/// A line that ended in a newline, without the carriage return that may stand
/// before that newline.
pub open spec fn without_cr(line: Seq<char>) -> Seq<char> {
    if line.len() > 0 && line.last() == '\r' {
        line.drop_last()
    } else {
        line
    }
}

/// The lines of `s` from position `i` on. A line ends at `\n` or `\r\n`; what
/// follows the last line ending is a line only when it is not empty.
pub open spec fn lines_from(s: Seq<char>, i: int) -> Seq<Seq<char>>
    decreases s.len() - i,
    when 0 <= i
{
    if i >= s.len() {
        Seq::empty()
    } else {
        let e = index_from(s, '\n', i);
        proof {
            lemma_index_from(s, '\n', i);
        }
        if e < s.len() {
            seq![without_cr(s.subrange(i, e))] + lines_from(s, e + 1)
        } else {
            seq![s.subrange(i, s.len() as int)]
        }
    }
}

/// The lines of `s`, each without the white space at its two ends.
pub open spec fn trimmed_lines(s: Seq<char>) -> Seq<Seq<char>> {
    lines_from(s, 0).map_values(|l: Seq<char>| trimmed(l))
}

/// The views of a vector of strings.
pub open spec fn texts(v: Seq<String>) -> Seq<Seq<char>> {
    v.map_values(|s: String| s@)
}

pub fn lines_trimmed(s: &str) -> (r: Vec<String>)
    ensures
        texts(r@) == trimmed_lines(s@),
{
    let chars: Vec<char> = to_chars(s);
    let n: usize = chars.len();
    let ghost f = |l: Seq<char>| trimmed(l);
    let mut out: Vec<String> = Vec::new();
    let mut i: usize = 0;
    assert(texts(out@) + lines_from(s@, 0).map_values(f) =~= trimmed_lines(s@));
    while i < n
        invariant
            i <= n == chars@.len(),
            chars@ == s@,
            f == (|l: Seq<char>| trimmed(l)),
            texts(out@) + lines_from(s@, i as int).map_values(f) == trimmed_lines(s@),
        decreases n - i,
    {
        let e: usize = find_from(&chars, '\n', i);
        let ghost before = texts(out@);
        let ghost rest = lines_from(s@, i as int);
        if e < n {
            let end: usize = if e > i && chars[e - 1] == '\r' {
                e - 1
            } else {
                e
            };
            let line: Vec<char> = copy_chars(&chars, i, end);
            assert(line@ =~= without_cr(s@.subrange(i as int, e as int)));
            out.push(trim_chars(&line));
            assert(rest == seq![line@] + lines_from(s@, e + 1));
            assert(texts(out@) =~= before.push(trimmed(line@)));
            assert(texts(out@) + lines_from(s@, e + 1).map_values(f) =~= before + rest.map_values(
                f,
            ));
            i = e + 1;
        } else {
            let line: Vec<char> = copy_chars(&chars, i, n);
            out.push(trim_chars(&line));
            assert(rest == seq![line@]);
            assert(texts(out@) =~= before.push(trimmed(line@)));
            assert(texts(out@) + lines_from(s@, n as int).map_values(f) =~= before
                + rest.map_values(f));
            i = n;
        }
    }
    assert(texts(out@) + lines_from(s@, n as int).map_values(f) =~= texts(out@));
    out
}

/// The characters `chars[from..to]`.
pub fn copy_chars(chars: &[char], from: usize, to: usize) -> (r: Vec<char>)
    requires
        from <= to <= chars@.len(),
    ensures
        r@ == chars@.subrange(from as int, to as int),
{
    let mut out: Vec<char> = Vec::new();
    let mut i: usize = from;
    while i < to
        invariant
            from <= i <= to <= chars@.len(),
            out@ == chars@.subrange(from as int, i as int),
        decreases to - i,
    {
        out.push(chars[i]);
        i = i + 1;
        assert(out@ =~= chars@.subrange(from as int, i as int));
    }
    out
}

/// The strings of `items`, one after the other, with one space between them.
pub open spec fn spaced(items: Seq<Seq<char>>) -> Seq<char>
    decreases items.len(),
{
    if items.len() == 0 {
        Seq::empty()
    } else if items.len() == 1 {
        items[0]
    } else {
        spaced(items.drop_last()) + seq![' '] + items.last()
    }
}

pub fn join_spaced(items: &[String]) -> (r: String)
    ensures
        r@ == spaced(texts(items@)),
{
    let mut out: String = String::new();
    let mut i: usize = 0;
    let ghost all = texts(items@);
    while i < items.len()
        invariant
            i <= items@.len(),
            all == texts(items@),
            out@ == spaced(all.take(i as int)),
        decreases items@.len() - i,
    {
        if i > 0 {
            out.push(' ');
        }
        out.append(&items[i]);
        proof {
            let next = all.take(i + 1);
            assert(next.drop_last() =~= all.take(i as int));
            assert(next.last() == all[i as int]);
            assert(all.take(0) =~= Seq::empty());
            if i == 0 {
                assert(out@ =~= next[0]);
            } else {
                assert(out@ =~= spaced(next.drop_last()) + seq![' '] + next.last());
            }
        }
        i = i + 1;
    }
    assert(all.take(i as int) =~= all);
    out
}

// ---------------------------------------------------------------------
// Laws
// ---------------------------------------------------------------------

/// Whether a text is all white space.
pub open spec fn all_white(s: Seq<char>) -> bool {
    forall|k: int| 0 <= k < s.len() ==> white(#[trigger] s[k])
}

/// Spaces, tabs and the ends of lines are white space; visible ASCII characters are
/// not.
pub proof fn law_white_space(c: char)
    ensures
        c == ' ' || c == '\t' || c == '\n' || c == '\r' ==> white(c),
        '!' <= c <= '~' ==> !white(c),
{
}

/// Trimming takes the white space off both ends and nothing else.
pub proof fn law_trimming_takes_the_ends_off(front: Seq<char>, s: Seq<char>, back: Seq<char>)
    requires
        all_white(front),
        all_white(back),
        s.len() > 0 ==> !white(s[0]) && !white(s.last()),
    ensures
        trimmed(front + s + back) == s,
{
    let all = front + s + back;
    let n = all.len() as int;
    let from = front.len() as int;
    let to = (front + s).len() as int;
    lemma_solid(all, 0);
    lemma_solid_to(all, n);
    let f = solid_from(all, 0);
    let t = solid_to(all, n);
    if s.len() > 0 {
        assert(all[from] == s[0]);
        assert(all[to - 1] == s.last());
        assert(f == from) by {
            if f < from {
                assert(all[f] == front[f]);
            }
        }
        assert(t == to) by {
            if t > to {
                assert(all[t - 1] == back[t - 1 - to]);
            }
        }
        assert(all.subrange(from, to) =~= s);
    } else {
        if f < n {
            if f < from {
                assert(all[f] == front[f]);
            } else {
                assert(all[f] == back[f - to]);
            }
        }
        if t > 0 {
            if t - 1 < from {
                assert(all[t - 1] == front[t - 1]);
            } else {
                assert(all[t - 1] == back[t - 1 - to]);
            }
        }
        assert(trimmed(all) =~= s);
    }
}

/// The first word is what comes first that is not white space, up to the next white
/// space. White space alone has none.
pub proof fn law_first_word(front: Seq<char>, word: Seq<char>, rest: Seq<char>)
    requires
        all_white(front),
        forall|k: int| 0 <= k < word.len() ==> !white(#[trigger] word[k]),
        rest.len() > 0 ==> white(rest[0]),
    ensures
        word.len() > 0 ==> first_word(front + word + rest) == Some(word),
        first_word(front) is None,
{
    let all = front + word + rest;
    let from = front.len() as int;
    let to = (front + word).len() as int;
    lemma_solid(front, 0);
    if word.len() > 0 {
        lemma_solid(all, 0);
        let f = solid_from(all, 0);
        assert(all[from] == word[0]);
        assert(f == from) by {
            if f < from {
                assert(all[f] == front[f]);
            }
        }
        assert forall|k: int| from <= k < to implies !white(all[k]) by {
            assert(all[k] == word[k - from]);
        }
        if rest.len() > 0 {
            assert(all[to] == rest[0]);
        }
        lemma_white_is(all, from, to);
        assert(all.subrange(from, to) =~= word);
    }
}

proof fn lemma_white_is(s: Seq<char>, i: int, e: int)
    requires
        0 <= i <= e <= s.len(),
        forall|k: int| i <= k < e ==> !white(s[k]),
        e < s.len() ==> white(s[e]),
    ensures
        white_from(s, i) == e,
    decreases e - i,
{
    if i < e {
        lemma_white_is(s, i + 1, e);
    }
}

proof fn lemma_lines_shift(a: Seq<char>, b: Seq<char>, i: int)
    requires
        0 <= i <= b.len(),
    ensures
        lines_from(a + b, a.len() + i) == lines_from(b, i),
    decreases b.len() - i,
{
    let s = a + b;
    let d = a.len() as int;
    if i < b.len() {
        lemma_index_from(b, '\n', i);
        let e = index_from(b, '\n', i);
        assert forall|k: int| d + i <= k < d + e implies s[k] != '\n' by {
            assert(s[k] == b[k - d]);
        }
        if e < b.len() {
            assert(s[d + e] == b[e]);
        }
        lemma_index_from_is(s, '\n', d + i, d + e);
        assert(s.subrange(d + i, d + e) =~= b.subrange(i, e));
        if e < b.len() {
            lemma_lines_shift(a, b, e + 1);
            assert(d + e + 1 == d + (e + 1));
        }
    }
}

/// A line ends at `\n` or `\r\n`, and the lines behind it are those of the rest. The
/// last line needs no end.
pub proof fn law_lines_end_at_newlines(line: Seq<char>, rest: Seq<char>)
    requires
        !line.contains('\n'),
    ensures
        line.len() == 0 || line.last() != '\r' ==> lines_from(line + seq!['\n'] + rest, 0) == seq![
            line,
        ] + lines_from(rest, 0),
        lines_from(line + seq!['\r', '\n'] + rest, 0) == seq![line] + lines_from(rest, 0),
        line.len() > 0 ==> lines_from(line, 0) == seq![line],
        lines_from(Seq::empty(), 0) == Seq::<Seq<char>>::empty(),
{
    lemma_one_line(line, seq!['\n'], rest);
    lemma_one_line(line.push('\r'), seq!['\n'], rest);
    assert(line.push('\r') + seq!['\n'] + rest =~= line + seq!['\r', '\n'] + rest);
    assert(line.push('\r').drop_last() =~= line);
    if line.len() > 0 {
        let n = line.len() as int;
        assert forall|k: int| 0 <= k < n implies line[k] != '\n' by {
            assert(line.contains(line[k]));
        }
        lemma_index_from_is(line, '\n', 0, n);
        assert(line.subrange(0, n) =~= line);
    }
}

proof fn lemma_one_line(line: Seq<char>, end: Seq<char>, rest: Seq<char>)
    requires
        !line.contains('\n') || (line.len() > 0 && line.last() == '\r'
            && !line.drop_last().contains('\n')),
        end == seq!['\n'],
    ensures
        lines_from(line + end + rest, 0) == seq![without_cr(line)] + lines_from(rest, 0),
{
    let s = line + end + rest;
    let n = line.len() as int;
    assert forall|k: int| 0 <= k < n implies s[k] != '\n' by {
        assert(s[k] == line[k]);
        if line.contains('\n') {
            if k < n - 1 {
                assert(line.drop_last().contains(line.drop_last()[k]));
            }
        } else {
            assert(line.contains(line[k]));
        }
    }
    assert(s[n] == '\n');
    lemma_index_from_is(s, '\n', 0, n);
    assert(s.subrange(0, n) =~= line);
    lemma_lines_shift(line + end, rest, 0);
    assert(s =~= (line + end) + rest);
}

/// Texts are joined with one space between each two of them.
pub proof fn law_joining_puts_one_space_between(a: Seq<Seq<char>>, b: Seq<Seq<char>>, x: Seq<char>)
    ensures
        spaced(Seq::empty()) == Seq::<char>::empty(),
        spaced(seq![x]) == x,
        a.len() > 0 && b.len() > 0 ==> spaced(a + b) == spaced(a) + seq![' '] + spaced(b),
    decreases b.len(),
{
    if a.len() > 0 && b.len() > 0 {
        let less = b.drop_last();
        assert((a + b).drop_last() =~= a + less);
        assert((a + b).last() == b.last());
        if less.len() == 0 {
            assert(a + less =~= a);
            assert(b =~= seq![b[0]]);
            assert(spaced(a + b) =~= spaced(a) + seq![' '] + spaced(b));
        } else {
            law_joining_puts_one_space_between(a, less, x);
            assert(spaced(b) == spaced(less) + seq![' '] + b.last());
            assert(spaced(a + b) =~= spaced(a) + seq![' '] + spaced(b));
        }
    }
}

/// The characters that are white space in Unicode.
pub open spec fn white_chars() -> Seq<char> {
    seq![
        '\u{9}',
        '\u{a}',
        '\u{b}',
        '\u{c}',
        '\u{d}',
        '\u{20}',
        '\u{85}',
        '\u{a0}',
        '\u{1680}',
        '\u{2000}',
        '\u{2001}',
        '\u{2002}',
        '\u{2003}',
        '\u{2004}',
        '\u{2005}',
        '\u{2006}',
        '\u{2007}',
        '\u{2008}',
        '\u{2009}',
        '\u{200a}',
        '\u{2028}',
        '\u{2029}',
        '\u{202f}',
        '\u{205f}',
        '\u{3000}',
    ]
}

/// Exactly these characters are white space.
pub proof fn law_these_are_white_space(c: char)
    ensures
        white(c) <==> white_chars().contains(c),
{
    let all = white_chars();
    if white(c) {
        let k: int = if c <= '\u{d}' {
            c as int - 9
        } else if c == ' ' {
            5
        } else if c == '\u{85}' {
            6
        } else if c == '\u{a0}' {
            7
        } else if c == '\u{1680}' {
            8
        } else if c <= '\u{200a}' {
            9 + (c as int - 0x2000)
        } else if c == '\u{2028}' {
            20
        } else if c == '\u{2029}' {
            21
        } else if c == '\u{202f}' {
            22
        } else if c == '\u{205f}' {
            23
        } else {
            24
        };
        assert(all[k] == c);
    }
    if all.contains(c) {
        let k = choose|k: int| 0 <= k < all.len() && all[k] == c;
        assert(white(all[k]));
    }
}

} // verus!
