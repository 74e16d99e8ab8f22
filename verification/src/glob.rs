//! Filename patterns: expands `*`, `?` and `[...]` in a word against a directory
//! tree.
//!
//! Only unquoted characters act as pattern characters, so `"*"` stays literal
//! while a variable that holds a pattern still expands. A pattern may span
//! directories; every component but the last must then be a directory. A
//! trailing `/` keeps directories only, and stays in the result. A name that
//! starts with `.` matches only where the pattern itself starts with `.`.
//!
//! Nothing here touches the file system. The caller supplies a function that
//! lists a directory; what is stated of a result holds for whatever it answers.

use vstd::prelude::*;

use crate::expand::{expand_word_tracked, expands_to, law_quoted_word_stays_quoted, total};
use crate::order::{before, lemma_sorted_is_unique, sort_texts, sorted};
use crate::text::{texts, to_chars};
use crate::word::{Part, RunKind, Word};

verus! {

/// A pattern: its characters, each with whether it was quoted.
pub type Pattern = Seq<(char, bool)>;

/// An entry of a directory: its name, and whether it is a directory.
pub type Entry = (Seq<char>, bool);

// ---------------------------------------------------------------------
// Character classes
// ---------------------------------------------------------------------

/// A `[...]` class: the characters in `members`, each an inclusive range, or,
/// if negated, all others. `end` is the position behind the closing bracket.
#[verifier::ext_equal]
pub struct Class {
    pub negated: bool,
    pub members: Seq<(char, char)>,
    pub end: int,
}

/// Whether the unquoted character `c` stands at position `i`.
pub open spec fn sign_at(pat: Pattern, i: int, c: char) -> bool {
    0 <= i < pat.len() && pat[i] == (c, false)
}

/// The members from position `i` on, behind those already `found`, up to the
/// closing bracket. `a-z` is a range unless its upper end is that bracket.
pub open spec fn class_rest(pat: Pattern, negated: bool, found: Seq<(char, char)>, i: int) -> Option<
    Class,
>
    decreases pat.len() - i,
{
    if i >= pat.len() {
        None
    } else if sign_at(pat, i, ']') {
        Some(Class { negated, members: found, end: i + 1 })
    } else if sign_at(pat, i + 1, '-') && i + 2 < pat.len() && !sign_at(pat, i + 2, ']') {
        class_rest(pat, negated, found.push((pat[i].0, pat[i + 2].0)), i + 3)
    } else {
        class_rest(pat, negated, found.push((pat[i].0, pat[i].0)), i + 1)
    }
}

/// The class whose opening bracket stands just before position `i`, if it is
/// closed. `!` or `^` negates it; a `]` that comes first is a member.
pub open spec fn class_at(pat: Pattern, i: int) -> Option<Class> {
    let negated = sign_at(pat, i, '!') || sign_at(pat, i, '^');
    let first = if negated {
        i + 1
    } else {
        i
    };
    if first < pat.len() && pat[first].0 == ']' {
        class_rest(pat, negated, seq![(']', ']')], first + 1)
    } else {
        class_rest(pat, negated, Seq::empty(), first)
    }
}

/// Whether `c` lies in one of the ranges.
pub open spec fn among(members: Seq<(char, char)>, c: char) -> bool {
    exists|k: int| 0 <= k < members.len() && (#[trigger] members[k]).0 <= c <= members[k].1
}

proof fn lemma_class_rest(pat: Pattern, negated: bool, found: Seq<(char, char)>, i: int)
    requires
        0 <= i,
    ensures
        class_rest(pat, negated, found, i) is Some ==> i < class_rest(
            pat,
            negated,
            found,
            i,
        )->0.end <= pat.len(),
    decreases pat.len() - i,
{
    if i < pat.len() && !sign_at(pat, i, ']') {
        if sign_at(pat, i + 1, '-') && i + 2 < pat.len() && !sign_at(pat, i + 2, ']') {
            lemma_class_rest(pat, negated, found.push((pat[i].0, pat[i + 2].0)), i + 3);
        } else {
            lemma_class_rest(pat, negated, found.push((pat[i].0, pat[i].0)), i + 1);
        }
    }
}

/// A class ends behind where it starts.
pub proof fn lemma_class_at(pat: Pattern, i: int)
    requires
        0 <= i,
    ensures
        class_at(pat, i) is Some ==> i < class_at(pat, i)->0.end <= pat.len(),
{
    let negated = sign_at(pat, i, '!') || sign_at(pat, i, '^');
    let first = if negated {
        i + 1
    } else {
        i
    };
    if first < pat.len() && pat[first].0 == ']' {
        lemma_class_rest(pat, negated, seq![(']', ']')], first + 1);
    } else {
        lemma_class_rest(pat, negated, Seq::empty(), first);
    }
}

/// Reads the class whose opening bracket stands just before `start`: whether it
/// is negated, its members, and the position behind the closing bracket.
pub fn parse_bracket_class(pat: &[(char, bool)], start: usize) -> (r: Option<
    (bool, Vec<(char, char)>, usize),
>)
    requires
        start <= pat@.len(),
    ensures
        match r {
            Some((negated, members, end)) => class_at(pat@, start as int) == Some(
                Class { negated, members: members@, end: end as int },
            ) && start < end <= pat@.len(),
            None => class_at(pat@, start as int) is None,
        },
{
    proof {
        lemma_class_at(pat@, start as int);
    }
    let n: usize = pat.len();
    let mut i: usize = start;
    let negated: bool = i < n && !pat[i].1 && (pat[i].0 == '!' || pat[i].0 == '^');
    if negated {
        i = i + 1;
    }
    let mut members: Vec<(char, char)> = Vec::new();
    if i < n && pat[i].0 == ']' {
        members.push((']', ']'));
        assert(members@ =~= seq![(']', ']')]);
        i = i + 1;
    }
    while i < n && !(pat[i].0 == ']' && !pat[i].1)
        invariant
            start <= i <= n == pat@.len(),
            class_rest(pat@, negated, members@, i as int) == class_at(pat@, start as int),
        decreases n - i,
    {
        let lo: char = pat[i].0;
        if i + 1 < n && pat[i + 1].0 == '-' && !pat[i + 1].1 && i + 2 < n && !(pat[i + 2].0 == ']'
            && !pat[i + 2].1) {
            members.push((lo, pat[i + 2].0));
            i = i + 3;
        } else {
            members.push((lo, lo));
            i = i + 1;
        }
    }
    if i < n {
        Some((negated, members, i + 1))
    } else {
        None
    }
}

pub fn class_contains(members: &[(char, char)], c: char) -> (r: bool)
    ensures
        r == among(members@, c),
{
    let mut i: usize = 0;
    while i < members.len()
        invariant
            i <= members@.len(),
            forall|k: int| 0 <= k < i ==> !((#[trigger] members@[k]).0 <= c <= members@[k].1),
        decreases members@.len() - i,
    {
        if members[i].0 <= c && c <= members[i].1 {
            assert(members@[i as int].0 <= c <= members@[i as int].1);
            return true;
        }
        i = i + 1;
    }
    false
}

// ---------------------------------------------------------------------
// One component
// ---------------------------------------------------------------------

/// Whether the pattern from position `i` on matches the name from `j` on. A `*`
/// takes nothing, or one character and then whatever it takes from there.
pub open spec fn matches_from(pat: Pattern, i: int, name: Seq<char>, j: int) -> bool
    decreases pat.len() - i, name.len() - j,
    when 0 <= i
{
    if i >= pat.len() {
        j == name.len()
    } else if sign_at(pat, i, '*') {
        matches_from(pat, i + 1, name, j) || (j < name.len() && matches_from(pat, i, name, j + 1))
    } else if sign_at(pat, i, '?') {
        j < name.len() && matches_from(pat, i + 1, name, j + 1)
    } else if sign_at(pat, i, '[') && class_at(pat, i + 1) is Some {
        let class = class_at(pat, i + 1)->0;
        proof {
            lemma_class_at(pat, i + 1);
        }
        &&& j < name.len()
        &&& among(class.members, name[j]) != class.negated
        &&& matches_from(pat, class.end, name, j + 1)
    } else {
        j < name.len() && name[j] == pat[i].0 && matches_from(pat, i + 1, name, j + 1)
    }
}

/// Whether a name may match a pattern as far as a leading `.` goes: a name that
/// starts with one needs a pattern that starts with one, quoted or not.
pub open spec fn dot_allowed(name: Seq<char>, pat: Pattern) -> bool {
    name.len() > 0 && name[0] == '.' ==> pat.len() > 0 && pat[0].0 == '.'
}

/// Whether `name` is one that `pat` picks.
pub open spec fn picks(pat: Pattern, name: Seq<char>) -> bool {
    dot_allowed(name, pat) && matches_from(pat, 0, name, 0)
}

fn match_rest(pat: &[(char, bool)], i: usize, name: &[char], j: usize) -> (r: bool)
    requires
        i <= pat@.len(),
        j <= name@.len(),
    ensures
        r == matches_from(pat@, i as int, name@, j as int),
    decreases pat@.len() - i,
{
    if i >= pat.len() {
        return j == name.len();
    }
    let c: char = pat[i].0;
    let quoted: bool = pat[i].1;
    if !quoted && c == '*' {
        let next: usize = i + 1;
        let mut k: usize = j;
        loop
            invariant
                i < pat@.len(),
                next == i + 1,
                sign_at(pat@, i as int, '*'),
                j <= k <= name@.len(),
                matches_from(pat@, i as int, name@, j as int) == matches_from(
                    pat@,
                    i as int,
                    name@,
                    k as int,
                ),
            decreases name@.len() - k,
        {
            if match_rest(pat, next, name, k) {
                return true;
            }
            if k == name.len() {
                return false;
            }
            k = k + 1;
        }
    }
    if !quoted && c == '?' {
        return j < name.len() && match_rest(pat, i + 1, name, j + 1);
    }
    if !quoted && c == '[' {
        if let Some((negated, members, end)) = parse_bracket_class(pat, i + 1) {
            return j < name.len() && class_contains(&members, name[j]) != negated && match_rest(
                pat,
                end,
                name,
                j + 1,
            );
        }
    }
    j < name.len() && name[j] == c && match_rest(pat, i + 1, name, j + 1)
}

/// Matches one path component against one pattern component.
pub fn glob_match_component(pat: &[(char, bool)], name: &[char]) -> (r: bool)
    ensures
        r == matches_from(pat@, 0, name@, 0),
{
    match_rest(pat, 0, name, 0)
}

pub fn dot_rule_ok(name: &[char], comp: &[(char, bool)]) -> (r: bool)
    ensures
        r == dot_allowed(name@, comp@),
{
    !(name.len() > 0 && name[0] == '.') || (comp.len() > 0 && comp[0].0 == '.')
}

// ---------------------------------------------------------------------
// Paths
// ---------------------------------------------------------------------

/// The pattern that a text with its quote flags makes.
pub open spec fn pattern(text: Seq<char>, quoted: Seq<bool>) -> Pattern {
    Seq::new(text.len(), |k: int| (text[k], quoted[k]))
}

/// Whether an unquoted `*`, `?` or `[` occurs.
pub open spec fn has_wildcard(pat: Pattern) -> bool {
    exists|k: int|
        0 <= k < pat.len() && !(#[trigger] pat[k]).1 && (pat[k].0 == '*' || pat[k].0 == '?'
            || pat[k].0 == '[')
}

/// The position of the first `/` at or after `i`, or the end.
pub open spec fn slash_from(pat: Pattern, i: int) -> int
    decreases pat.len() - i,
{
    if i >= pat.len() || pat[i].0 == '/' {
        i
    } else {
        slash_from(pat, i + 1)
    }
}

pub proof fn lemma_slash_from(pat: Pattern, i: int)
    requires
        0 <= i <= pat.len(),
    ensures
        i <= slash_from(pat, i) <= pat.len(),
        slash_from(pat, i) < pat.len() ==> pat[slash_from(pat, i)].0 == '/',
        forall|k: int| i <= k < slash_from(pat, i) ==> (#[trigger] pat[k]).0 != '/',
    decreases pat.len() - i,
{
    if i < pat.len() && pat[i].0 != '/' {
        lemma_slash_from(pat, i + 1);
    }
}

/// The components from position `i` on: what stands between slashes, where
/// anything does.
pub open spec fn components(pat: Pattern, i: int) -> Seq<Pattern>
    decreases pat.len() + 1 - i,
    when 0 <= i
{
    if i >= pat.len() {
        Seq::empty()
    } else {
        let end = slash_from(pat, i);
        proof {
            lemma_slash_from(pat, i);
        }
        if end > i {
            seq![pat.subrange(i, end)] + components(pat, end + 1)
        } else {
            components(pat, end + 1)
        }
    }
}

/// The path of `name` in the directory `base`. The empty path is the current
/// directory; `/` is the root.
pub open spec fn child_path(base: Seq<char>, name: Seq<char>) -> Seq<char> {
    if base.len() == 0 {
        name
    } else if base.last() == '/' {
        base + name
    } else {
        base.push('/') + name
    }
}

/// Where the walk starts.
pub open spec fn root(pat: Pattern) -> Seq<char> {
    if pat.len() > 0 && pat[0].0 == '/' {
        seq!['/']
    } else {
        Seq::empty()
    }
}

/// Whether only directories may match the last component.
pub open spec fn ends_in_slash(pat: Pattern) -> bool {
    pat.len() > 0 && pat.last().0 == '/'
}

/// Whether the entry matches, and is a directory where it has to be one.
pub open spec fn fits(pat: Pattern, entry: Entry, dirs: bool) -> bool {
    picks(pat, entry.0) && (dirs ==> entry.1)
}

/// The paths of the matching entries of the directory `base`.
pub open spec fn picked(base: Seq<char>, pat: Pattern, entries: Seq<Entry>, dirs: bool) -> Seq<
    Seq<char>,
>
    decreases entries.len(),
{
    if entries.len() == 0 {
        Seq::empty()
    } else {
        let before = picked(base, pat, entries.drop_last(), dirs);
        if fits(pat, entries.last(), dirs) {
            before.push(child_path(base, entries.last().0))
        } else {
            before
        }
    }
}

/// The paths of the matching entries of all directories in `bases`, whose
/// listings are `lists`.
pub open spec fn level(
    bases: Seq<Seq<char>>,
    pat: Pattern,
    lists: Seq<Seq<Entry>>,
    dirs: bool,
) -> Seq<Seq<char>>
    decreases bases.len(),
{
    if bases.len() == 0 {
        Seq::empty()
    } else {
        level(bases.drop_last(), pat, lists.drop_last(), dirs) + picked(
            bases.last(),
            pat,
            lists.last(),
            dirs,
        )
    }
}

/// The paths that match the first `n` components of `pat`, where `lists[l]` holds
/// the listings of the directories that match the first `l`.
pub open spec fn reached(pat: Pattern, lists: Seq<Seq<Seq<Entry>>>, n: int) -> Seq<Seq<char>>
    decreases n,
{
    let comps = components(pat, 0);
    if n <= 0 {
        seq![root(pat)]
    } else {
        level(
            reached(pat, lists, n - 1),
            comps[n - 1],
            lists[n - 1],
            n < comps.len() || ends_in_slash(pat),
        )
    }
}

/// The paths that match the whole pattern, in the order of the listings.
pub open spec fn found(pat: Pattern, lists: Seq<Seq<Seq<Entry>>>) -> Seq<Seq<char>> {
    let paths = reached(pat, lists, components(pat, 0).len() as int);
    if ends_in_slash(pat) {
        paths.map_values(|p: Seq<char>| p.push('/'))
    } else {
        paths
    }
}

// ---------------------------------------------------------------------
// The directory tree
// ---------------------------------------------------------------------

/// The entries of a listing.
pub open spec fn entries_view(v: Seq<(String, bool)>) -> Seq<Entry> {
    v.map_values(|e: (String, bool)| (e.0@, e.1))
}

/// Whether `list` can answer the directory `dir` with `entries`.
pub open spec fn lists_as<L: Fn(&str) -> Vec<(String, bool)>>(
    list: L,
    dir: Seq<char>,
    entries: Seq<Entry>,
) -> bool {
    exists|d: &str, r: Vec<(String, bool)>|
        d@ == dir && #[trigger] call_ensures(list, (d,), r) && entries == entries_view(r@)
}

/// Whether `lists` is what `list` can answer on a walk along `pat`.
pub open spec fn walks<L: Fn(&str) -> Vec<(String, bool)>>(
    list: L,
    pat: Pattern,
    lists: Seq<Seq<Seq<Entry>>>,
) -> bool {
    &&& lists.len() == components(pat, 0).len()
    &&& forall|l: int| 0 <= l < lists.len() ==> #[trigger] level_listed(list, pat, lists, l)
}

pub open spec fn level_listed<L: Fn(&str) -> Vec<(String, bool)>>(
    list: L,
    pat: Pattern,
    lists: Seq<Seq<Seq<Entry>>>,
    l: int,
) -> bool {
    all_listed(list, reached(pat, lists, l), lists[l])
}

/// Whether `answers` is what `list` can answer the directories `dirs` with.
pub open spec fn all_listed<L: Fn(&str) -> Vec<(String, bool)>>(
    list: L,
    dirs: Seq<Seq<char>>,
    answers: Seq<Seq<Entry>>,
) -> bool {
    &&& answers.len() == dirs.len()
    &&& forall|b: int| 0 <= b < dirs.len() ==> lists_as(list, dirs[b], #[trigger] answers[b])
}

/// Whether `paths` is what the pattern can expand to: nothing if it holds no
/// wildcard, else all the paths that match it, in order.
pub open spec fn globs_to<L: Fn(&str) -> Vec<(String, bool)>>(
    list: L,
    pat: Pattern,
    paths: Seq<Seq<char>>,
) -> bool {
    if !has_wildcard(pat) {
        paths.len() == 0
    } else {
        exists|lists: Seq<Seq<Seq<Entry>>>| #[trigger]
            walks(list, pat, lists) && sorted(paths) && paths.to_multiset() == found(
                pat,
                lists,
            ).to_multiset()
    }
}

/// Whether `list` takes every directory.
pub open spec fn lists_any<L: Fn(&str) -> Vec<(String, bool)>>(list: L) -> bool {
    forall|d: &str| call_requires(list, (d,))
}

// ---------------------------------------------------------------------
// Expansion
// ---------------------------------------------------------------------

/// Whether the text holds any unquoted `*`, `?` or `[`, and so is worth asking
/// for a listing.
pub fn has_active_glob(pat: &[(char, bool)]) -> (r: bool)
    ensures
        r == has_wildcard(pat@),
{
    let mut i: usize = 0;
    while i < pat.len()
        invariant
            i <= pat@.len(),
            forall|k: int|
                0 <= k < i ==> (#[trigger] pat@[k]).1 || !(pat@[k].0 == '*' || pat@[k].0 == '?'
                    || pat@[k].0 == '['),
        decreases pat@.len() - i,
    {
        if !pat[i].1 && (pat[i].0 == '*' || pat[i].0 == '?' || pat[i].0 == '[') {
            assert(!pat@[i as int].1);
            return true;
        }
        i = i + 1;
    }
    false
}

/// Joins a walked base path with a matched name.
pub fn join_path(base: &str, name: &str) -> (r: String)
    ensures
        r@ == child_path(base@, name@),
{
    let chars: Vec<char> = to_chars(base);
    let mut out: String = base.to_owned();
    if chars.len() > 0 && chars[chars.len() - 1] != '/' {
        out.push('/');
    }
    out.append(name);
    proof {
        if base@.len() == 0 {
            assert(base@ + name@ =~= name@);
        }
    }
    out
}

pub open spec fn patterns_view(v: Seq<Vec<(char, bool)>>) -> Seq<Pattern> {
    v.map_values(|c: Vec<(char, bool)>| c@)
}

/// Splits a pattern at its slashes, and drops what is empty.
pub fn split_components(pat: &[(char, bool)]) -> (r: Vec<Vec<(char, bool)>>)
    ensures
        patterns_view(r@) == components(pat@, 0),
{
    let n: usize = pat.len();
    let mut out: Vec<Vec<(char, bool)>> = Vec::new();
    let mut i: usize = 0;
    assert(patterns_view(out@) + components(pat@, 0) =~= components(pat@, 0));
    while i < n
        invariant
            i <= n == pat@.len(),
            patterns_view(out@) + components(pat@, i as int) == components(pat@, 0),
        decreases n - i,
    {
        let start: usize = i;
        let mut current: Vec<(char, bool)> = Vec::new();
        while i < n && pat[i].0 != '/'
            invariant
                start <= i <= n == pat@.len(),
                slash_from(pat@, i as int) == slash_from(pat@, start as int),
                current@ == pat@.subrange(start as int, i as int),
            decreases n - i,
        {
            current.push(pat[i]);
            i = i + 1;
        }
        let ghost before = patterns_view(out@);
        let ghost rest = components(pat@, i + 1);
        if current.len() > 0 {
            out.push(current);
            assert(patterns_view(out@) =~= before.push(current@));
            assert(before.push(current@) + rest =~= before + (seq![current@] + rest));
        }
        if i < n {
            i = i + 1;
        } else {
            assert(rest =~= components(pat@, n as int));
        }
    }
    assert(patterns_view(out@) + components(pat@, i as int) =~= patterns_view(out@));
    out
}

/// Adds the paths of the matching entries of `base` to `out`.
fn pick_entries<L: Fn(&str) -> Vec<(String, bool)>>(
    base: &str,
    comp: &[(char, bool)],
    dirs: bool,
    list: &L,
    out: &mut Vec<String>,
)
    requires
        lists_any(*list),
    ensures
        exists|entries: Seq<Entry>| #[trigger]
            lists_as(*list, base@, entries) && texts(final(out)@) == texts(old(out)@) + picked(
                base@,
                comp@,
                entries,
                dirs,
            ),
{
    let entries: Vec<(String, bool)> = list(base);
    let ghost all = entries_view(entries@);
    assert(lists_as(*list, base@, all));
    let mut i: usize = 0;
    assert(texts(old(out)@) + picked(base@, comp@, all.take(0), dirs) =~= texts(old(out)@));
    while i < entries.len()
        invariant
            i <= entries@.len(),
            all == entries_view(entries@),
            texts(out@) == texts(old(out)@) + picked(base@, comp@, all.take(i as int), dirs),
        decreases entries@.len() - i,
    {
        let ghost done = texts(out@);
        assert(all.take(i + 1).drop_last() =~= all.take(i as int));
        assert(all.take(i + 1).last() == (entries@[i as int].0@, entries@[i as int].1));
        let name: Vec<char> = to_chars(&entries[i].0);
        let is_dir: bool = entries[i].1;
        if dot_rule_ok(&name, comp) && glob_match_component(comp, &name) && (is_dir || !dirs) {
            let path: String = join_path(base, &entries[i].0);
            out.push(path);
            assert(texts(out@) =~= done.push(path@));
        }
        i = i + 1;
    }
    assert(all.take(i as int) =~= all);
}

/// The listings that a walk has already made do not depend on later ones.
proof fn lemma_reached_prefix(
    pat: Pattern,
    a: Seq<Seq<Seq<Entry>>>,
    b: Seq<Seq<Seq<Entry>>>,
    n: int,
)
    requires
        n <= a.len(),
        n <= b.len(),
        forall|l: int| 0 <= l < n ==> a[l] == b[l],
    ensures
        reached(pat, a, n) == reached(pat, b, n),
    decreases n,
{
    if n > 0 {
        lemma_reached_prefix(pat, a, b, n - 1);
    }
}

/// Expands a pattern against the directory tree that `list` shows.
pub fn glob_expand_pattern<L: Fn(&str) -> Vec<(String, bool)>>(
    pat: &[(char, bool)],
    list: &L,
) -> (r: Vec<String>)
    requires
        lists_any(*list),
    ensures
        globs_to(*list, pat@, texts(r@)),
{
    if !has_active_glob(pat) {
        return Vec::new();
    }
    let comps: Vec<Vec<(char, bool)>> = split_components(pat);
    let ghost cs = components(pat@, 0);
    let slash: bool = pat.len() > 0 && pat[pat.len() - 1].0 == '/';
    let mut start: String = String::new();
    if pat.len() > 0 && pat[0].0 == '/' {
        start.push('/');
    }
    let mut front: Vec<String> = Vec::new();
    front.push(start);
    assert(start@ =~= root(pat@));
    let ghost mut lists: Seq<Seq<Seq<Entry>>> = Seq::empty();
    assert(texts(front@) =~= reached(pat@, lists, 0));
    let mut l: usize = 0;
    while l < comps.len()
        invariant
            l <= comps@.len(),
            lists.len() == l,
            cs == components(pat@, 0),
            patterns_view(comps@) == cs,
            slash == ends_in_slash(pat@),
            lists_any(*list),
            texts(front@) == reached(pat@, lists, l as int),
            forall|k: int| 0 <= k < lists.len() ==> #[trigger] level_listed(*list, pat@, lists, k),
        decreases comps@.len() - l,
    {
        let dirs: bool = l + 1 < comps.len() || slash;
        let mut next: Vec<String> = Vec::new();
        let ghost bases = texts(front@);
        let ghost mut answers: Seq<Seq<Entry>> = Seq::empty();
        assert(patterns_view(comps@)[l as int] == comps@[l as int]@);
        let mut b: usize = 0;
        assert(texts(next@) =~= level(bases.take(0), cs[l as int], answers, dirs));
        while b < front.len()
            invariant
                b <= front@.len(),
                bases == texts(front@),
                l < comps@.len(),
                cs[l as int] == comps@[l as int]@,
                lists_any(*list),
                all_listed(*list, bases.take(b as int), answers),
                texts(next@) == level(bases.take(b as int), cs[l as int], answers, dirs),
            decreases front@.len() - b,
        {
            let ghost before = texts(next@);
            pick_entries(&front[b], &comps[l], dirs, list, &mut next);
            proof {
                let base = bases[b as int];
                let entries = choose|entries: Seq<Entry>| #[trigger]
                    lists_as(*list, base, entries) && texts(next@) == before + picked(
                        base,
                        cs[l as int],
                        entries,
                        dirs,
                    );
                let more = answers.push(entries);
                assert(bases.take(b + 1).drop_last() =~= bases.take(b as int));
                assert(bases.take(b + 1).last() == base);
                assert(more.drop_last() =~= answers);
                assert forall|k: int| 0 <= k < b + 1 implies lists_as(
                    *list,
                    bases.take(b + 1)[k],
                    #[trigger] more[k],
                ) by {
                    if k < b {
                        assert(more[k] == answers[k]);
                        assert(bases.take(b as int)[k] == bases.take(b + 1)[k]);
                    }
                }
                answers = more;
            }
            b = b + 1;
        }
        proof {
            assert(bases.take(b as int) =~= bases);
            let more = lists.push(answers);
            assert forall|k: int| 0 <= k <= l implies reached(pat@, more, k) == reached(
                pat@,
                lists,
                k,
            ) by {
                lemma_reached_prefix(pat@, more, lists, k);
            }
            assert forall|k: int| 0 <= k < more.len() implies #[trigger] level_listed(
                *list,
                pat@,
                more,
                k,
            ) by {
                if k < l {
                    assert(level_listed(*list, pat@, lists, k));
                    assert(more[k] == lists[k]);
                }
                assert(reached(pat@, more, k) == reached(pat@, lists, k));
            }
            assert(reached(pat@, more, l as int) == reached(pat@, lists, l as int));
            lists = more;
        }
        front = next;
        l = l + 1;
    }
    assert(walks(*list, pat@, lists));
    let mut out: Vec<String> = Vec::new();
    let ghost paths = texts(front@);
    if slash {
        let ghost goal = found(pat@, lists);
        let mut k: usize = 0;
        while k < front.len()
            invariant
                k <= front@.len(),
                paths == texts(front@),
                goal == paths.map_values(|p: Seq<char>| p.push('/')),
                texts(out@) == goal.take(k as int),
            decreases front@.len() - k,
        {
            let mut path: String = front[k].clone();
            path.push('/');
            let ghost done = texts(out@);
            out.push(path);
            assert(texts(out@) =~= done.push(goal[k as int]));
            k = k + 1;
        }
        assert(goal.take(k as int) =~= goal);
    } else {
        out = front;
    }
    assert(texts(out@) == found(pat@, lists));
    sort_texts(out)
}

/// Pairs each character with its quote flag.
fn mark_chars(chars: &[char], quoted: &[bool]) -> (r: Vec<(char, bool)>)
    requires
        chars@.len() == quoted@.len(),
    ensures
        r@ == pattern(chars@, quoted@),
{
    let mut out: Vec<(char, bool)> = Vec::new();
    let mut i: usize = 0;
    while i < chars.len()
        invariant
            i <= chars@.len() == quoted@.len(),
            out@ == pattern(chars@, quoted@).take(i as int),
        decreases chars@.len() - i,
    {
        out.push((chars[i], quoted[i]));
        i = i + 1;
    }
    out
}

/// Expands the pattern of one word, after its variables. The result is empty if
/// the word holds no active pattern character or nothing matches.
pub fn glob_expand_word<F: Fn(&str) -> Option<String>, L: Fn(&str) -> Vec<(String, bool)>>(
    word: &Word,
    lookup: &F,
    list: &L,
) -> (r: Vec<String>)
    requires
        total(*lookup),
        lists_any(*list),
    ensures
        exists|text: Seq<char>, quoted: Seq<bool>| #[trigger]
            expands_to(*lookup, word@, text, quoted) && globs_to(
                *list,
                pattern(text, quoted),
                texts(r@),
            ),
{
    let (text, quoted) = expand_word_tracked(word, lookup);
    let chars: Vec<char> = to_chars(&text);
    let pat: Vec<(char, bool)> = mark_chars(&chars, &quoted);
    glob_expand_pattern(&pat, list)
}

// ---------------------------------------------------------------------
// Laws
// ---------------------------------------------------------------------

/// An unquoted `*` takes any run of characters, the empty one included.
pub proof fn law_star_takes_any_run(pat: Pattern, i: int, name: Seq<char>, j: int)
    requires
        sign_at(pat, i, '*'),
        0 <= j <= name.len(),
    ensures
        matches_from(pat, i, name, j) <==> exists|k: int|
            j <= k <= name.len() && #[trigger] matches_from(pat, i + 1, name, k),
    decreases name.len() - j,
{
    if j < name.len() {
        law_star_takes_any_run(pat, i, name, j + 1);
    }
    if matches_from(pat, i, name, j) && !matches_from(pat, i + 1, name, j) {
        let k = choose|k: int|
            j + 1 <= k <= name.len() && #[trigger] matches_from(pat, i + 1, name, k);
        assert(j <= k <= name.len());
    }
}

/// The characters of a pattern.
pub open spec fn letters(pat: Pattern) -> Seq<char> {
    pat.map_values(|c: (char, bool)| c.0)
}

/// A pattern without an unquoted wildcard matches its own text only.
pub proof fn law_no_wildcard_matches_itself(pat: Pattern, name: Seq<char>)
    requires
        !has_wildcard(pat),
    ensures
        matches_from(pat, 0, name, 0) <==> name == letters(pat),
{
    lemma_plain_matches(pat, name, 0);
    if name == letters(pat) {
        assert forall|k: int| 0 <= k < pat.len() implies name[k] == (#[trigger] pat[k]).0 by {}
    } else if matches_from(pat, 0, name, 0) {
        assert(name =~= letters(pat));
    }
}

proof fn lemma_plain_matches(pat: Pattern, name: Seq<char>, i: int)
    requires
        !has_wildcard(pat),
        0 <= i <= pat.len(),
    ensures
        matches_from(pat, i, name, i) <==> name.len() == pat.len() && forall|k: int|
            i <= k < pat.len() ==> name[k] == (#[trigger] pat[k]).0,
    decreases pat.len() - i,
{
    if i < pat.len() {
        assert(pat[i].1 || !(pat[i].0 == '*' || pat[i].0 == '?' || pat[i].0 == '['));
        if i < name.len() {
            lemma_plain_matches(pat, name, i + 1);
        }
    }
}

/// A name that starts with `.` is picked only by a pattern that starts with `.`.
pub proof fn law_hidden_names_need_a_dot(pat: Pattern, name: Seq<char>)
    requires
        name.len() > 0,
        name[0] == '.',
        picks(pat, name),
    ensures
        pat.len() > 0,
        pat[0].0 == '.',
{
}

/// `*` picks every name that is not hidden, and no other.
pub proof fn law_star_picks_all_but_hidden(name: Seq<char>)
    ensures
        picks(seq![('*', false)], name) <==> !(name.len() > 0 && name[0] == '.'),
{
    let pat: Pattern = seq![('*', false)];
    law_star_takes_any_run(pat, 0, name, 0);
    assert(matches_from(pat, 1, name, name.len() as int));
}

/// `?` takes exactly one character, whichever it is.
pub proof fn law_question_mark_takes_one(name: Seq<char>)
    ensures
        matches_from(seq![('?', false)], 0, name, 0) <==> name.len() == 1,
{
    reveal_with_fuel(matches_from, 2);
}

/// An opening bracket that is never closed matches itself.
pub proof fn law_open_bracket_is_literal(pat: Pattern, i: int, name: Seq<char>, j: int)
    requires
        sign_at(pat, i, '['),
        class_at(pat, i + 1) is None,
        0 <= j,
    ensures
        matches_from(pat, i, name, j) <==> j < name.len() && name[j] == '[' && matches_from(
            pat,
            i + 1,
            name,
            j + 1,
        ),
{
}

/// A word that is written wholly inside quotes expands to no paths.
pub proof fn law_quoted_words_never_glob<
    F: Fn(&str) -> Option<String>,
    L: Fn(&str) -> Vec<(String, bool)>,
>(
    lookup: F,
    list: L,
    word: Seq<Part>,
    text: Seq<char>,
    quoted: Seq<bool>,
    paths: Seq<Seq<char>>,
)
    requires
        forall|k: int| 0 <= k < word.len() ==> (#[trigger] word[k]).kind != RunKind::Unquoted,
        expands_to(lookup, word, text, quoted),
        globs_to(list, pattern(text, quoted), paths),
    ensures
        paths.len() == 0,
{
    law_quoted_word_stays_quoted(lookup, word, text, quoted);
    let pat = pattern(text, quoted);
    if has_wildcard(pat) {
        let k = choose|k: int|
            0 <= k < pat.len() && !(#[trigger] pat[k]).1 && (pat[k].0 == '*' || pat[k].0 == '?'
                || pat[k].0 == '[');
        assert(pat[k].1 == quoted[k]);
        assert(quoted[k] == Seq::new(text.len(), |k: int| true)[k]);
    }
}

/// Whether some entry of one of the listings matches and has the path `path`.
pub open spec fn has_match(
    bases: Seq<Seq<char>>,
    pat: Pattern,
    lists: Seq<Seq<Entry>>,
    dirs: bool,
    path: Seq<char>,
) -> bool {
    exists|b: int, k: int|
        0 <= b < bases.len() && 0 <= k < lists[b].len() && fits(
            pat,
            #[trigger] lists[b][k],
            dirs,
        ) && path == child_path(bases[b], lists[b][k].0)
}

/// One step of a walk reaches exactly the matching entries of the directories
/// that it started from, and of nothing but directories while more is to come.
pub proof fn law_step_reaches_matches(
    bases: Seq<Seq<char>>,
    pat: Pattern,
    lists: Seq<Seq<Entry>>,
    dirs: bool,
    path: Seq<char>,
)
    requires
        bases.len() == lists.len(),
    ensures
        level(bases, pat, lists, dirs).contains(path) <==> has_match(
            bases,
            pat,
            lists,
            dirs,
            path,
        ),
    decreases bases.len(),
{
    if bases.len() > 0 {
        let b0 = bases.drop_last();
        let l0 = lists.drop_last();
        let n = bases.len() - 1;
        law_step_reaches_matches(b0, pat, l0, dirs, path);
        lemma_picked(bases.last(), pat, lists.last(), dirs, path);
        let x = level(b0, pat, l0, dirs);
        let y = picked(bases.last(), pat, lists.last(), dirs);
        assert(level(bases, pat, lists, dirs) == x + y);
        if (x + y).contains(path) {
            let m = choose|m: int| 0 <= m < (x + y).len() && (x + y)[m] == path;
            if m < x.len() {
                assert(x.contains(x[m]));
                let (b, k) = choose|b: int, k: int|
                    0 <= b < b0.len() && 0 <= k < l0[b].len() && fits(
                        pat,
                        #[trigger] l0[b][k],
                        dirs,
                    ) && path == child_path(b0[b], l0[b][k].0);
                assert(lists[b][k] == l0[b][k]);
            } else {
                assert(y.contains(y[m - x.len()]));
                let k = choose|k: int|
                    0 <= k < lists.last().len() && fits(pat, #[trigger] lists.last()[k], dirs)
                        && path == child_path(bases.last(), lists.last()[k].0);
                assert(lists[n][k] == lists.last()[k]);
            }
            assert(has_match(bases, pat, lists, dirs, path));
        }
        if has_match(bases, pat, lists, dirs, path) {
            let (b, k) = choose|b: int, k: int|
                0 <= b < bases.len() && 0 <= k < lists[b].len() && fits(
                    pat,
                    #[trigger] lists[b][k],
                    dirs,
                ) && path == child_path(bases[b], lists[b][k].0);
            if b < n {
                assert(l0[b][k] == lists[b][k]);
                assert(has_match(b0, pat, l0, dirs, path));
                let m = choose|m: int| 0 <= m < x.len() && x[m] == path;
                assert((x + y)[m] == path);
            } else {
                assert(lists.last()[k] == lists[b][k]);
                let m = choose|m: int| 0 <= m < y.len() && y[m] == path;
                assert((x + y)[x.len() + m] == path);
            }
        }
    }
}

proof fn lemma_picked(
    base: Seq<char>,
    pat: Pattern,
    entries: Seq<Entry>,
    dirs: bool,
    path: Seq<char>,
)
    ensures
        picked(base, pat, entries, dirs).contains(path) <==> exists|k: int|
            0 <= k < entries.len() && fits(pat, #[trigger] entries[k], dirs) && path == child_path(
                base,
                entries[k].0,
            ),
    decreases entries.len(),
{
    if entries.len() > 0 {
        let e0 = entries.drop_last();
        lemma_picked(base, pat, e0, dirs, path);
        let x = picked(base, pat, e0, dirs);
        let all = picked(base, pat, entries, dirs);
        let last = child_path(base, entries.last().0);
        if all.contains(path) {
            let m = choose|m: int| 0 <= m < all.len() && all[m] == path;
            if m < x.len() {
                assert(x.contains(x[m]));
                let k = choose|k: int|
                    0 <= k < e0.len() && fits(pat, #[trigger] e0[k], dirs) && path == child_path(
                        base,
                        e0[k].0,
                    );
                assert(entries[k] == e0[k]);
            } else {
                assert(fits(pat, entries[entries.len() - 1], dirs));
            }
        }
        if exists|k: int|
            0 <= k < entries.len() && fits(pat, #[trigger] entries[k], dirs) && path == child_path(
                base,
                entries[k].0,
            ) {
            let k = choose|k: int|
                0 <= k < entries.len() && fits(pat, #[trigger] entries[k], dirs) && path
                    == child_path(base, entries[k].0);
            if k < e0.len() {
                assert(e0[k] == entries[k]);
                let m = choose|m: int| 0 <= m < x.len() && x[m] == path;
                assert(all[m] == path);
            } else {
                assert(all[x.len() as int] == path);
            }
        }
    }
}

/// A pattern that ends in `/` expands to paths that end in `/`.
pub proof fn law_trailing_slash_is_kept<L: Fn(&str) -> Vec<(String, bool)>>(
    list: L,
    pat: Pattern,
    paths: Seq<Seq<char>>,
)
    requires
        globs_to(list, pat, paths),
        ends_in_slash(pat),
    ensures
        forall|k: int| 0 <= k < paths.len() ==> (#[trigger] paths[k]).len() > 0 && paths[k].last()
            == '/',
{
    broadcast use vstd::seq_lib::group_to_multiset_ensures;

    if has_wildcard(pat) {
        let lists = choose|lists: Seq<Seq<Seq<Entry>>>| #[trigger]
            walks(list, pat, lists) && sorted(paths) && paths.to_multiset() == found(
                pat,
                lists,
            ).to_multiset();
        let all = found(pat, lists);
        assert forall|k: int| 0 <= k < paths.len() implies (#[trigger] paths[k]).len() > 0
            && paths[k].last() == '/' by {
            assert(paths.contains(paths[k]));
            assert(paths.to_multiset().count(paths[k]) > 0);
            assert(all.contains(paths[k]));
            let m = choose|m: int| 0 <= m < all.len() && all[m] == paths[k];
            assert(all[m].last() == '/');
        }
    }
}

/// Whether `list` shows the fixed directory tree `tree`.
pub open spec fn shows<L: Fn(&str) -> Vec<(String, bool)>>(
    list: L,
    tree: spec_fn(Seq<char>) -> Seq<Entry>,
) -> bool {
    forall|d: &str, r: Vec<(String, bool)>| #[trigger]
        call_ensures(list, (d,), r) ==> entries_view(r@) == tree(d@)
}

/// While the directory tree does not change, a pattern has one expansion.
pub proof fn law_glob_is_determined<L: Fn(&str) -> Vec<(String, bool)>>(
    list: L,
    tree: spec_fn(Seq<char>) -> Seq<Entry>,
    pat: Pattern,
    a: Seq<Seq<char>>,
    b: Seq<Seq<char>>,
)
    requires
        shows(list, tree),
        globs_to(list, pat, a),
        globs_to(list, pat, b),
    ensures
        a == b,
{
    if !has_wildcard(pat) {
        assert(a =~= b);
    } else {
        let la = choose|lists: Seq<Seq<Seq<Entry>>>| #[trigger]
            walks(list, pat, lists) && sorted(a) && a.to_multiset() == found(
                pat,
                lists,
            ).to_multiset();
        let lb = choose|lists: Seq<Seq<Seq<Entry>>>| #[trigger]
            walks(list, pat, lists) && sorted(b) && b.to_multiset() == found(
                pat,
                lists,
            ).to_multiset();
        let n = la.len() as int;
        lemma_same_walk(list, tree, pat, la, lb, n);
        assert(la =~= lb);
        lemma_sorted_is_unique(a, b);
    }
}

proof fn lemma_same_walk<L: Fn(&str) -> Vec<(String, bool)>>(
    list: L,
    tree: spec_fn(Seq<char>) -> Seq<Entry>,
    pat: Pattern,
    a: Seq<Seq<Seq<Entry>>>,
    b: Seq<Seq<Seq<Entry>>>,
    n: int,
)
    requires
        shows(list, tree),
        walks(list, pat, a),
        walks(list, pat, b),
        0 <= n <= a.len(),
    ensures
        forall|l: int| 0 <= l < n ==> a[l] == b[l],
    decreases n,
{
    if n > 0 {
        let m = n - 1;
        lemma_same_walk(list, tree, pat, a, b, m);
        lemma_reached_prefix(pat, a, b, m);
        let dirs = reached(pat, a, m);
        assert(level_listed(list, pat, a, m));
        assert(level_listed(list, pat, b, m));
        assert forall|k: int| 0 <= k < dirs.len() implies a[m][k] == b[m][k] by {
            assert(lists_as(list, dirs[k], a[m][k]));
            assert(lists_as(list, dirs[k], b[m][k]));
        }
        assert(a[m] =~= b[m]);
    }
}

// ---------------------------------------------------------------------
// What a pattern is made of
// ---------------------------------------------------------------------

/// A member as it is written in a class: a character, or a range of them. Each
/// character comes with whether it was quoted.
pub enum Member {
    One((char, bool)),
    Range((char, bool), (char, bool)),
}

/// The characters that write a member.
pub open spec fn member_text(m: Member) -> Pattern {
    match m {
        Member::One(c) => seq![c],
        Member::Range(lo, hi) => seq![lo, ('-', false), hi],
    }
}

/// Whether a member takes the character `x`.
pub open spec fn takes(m: Member, x: char) -> bool {
    match m {
        Member::One(c) => x == c.0,
        Member::Range(lo, hi) => lo.0 <= x <= hi.0,
    }
}

/// The characters that write the members, one behind the other.
pub open spec fn members_text(ms: Seq<Member>) -> Pattern
    decreases ms.len(),
{
    if ms.len() == 0 {
        Seq::empty()
    } else {
        member_text(ms[0]) + members_text(ms.skip(1))
    }
}

/// Whether a member can stand in a class: it holds no unquoted `]`.
pub open spec fn can_stand(m: Member) -> bool {
    match m {
        Member::One(c) => c != (']', false),
        Member::Range(lo, hi) => lo != (']', false) && hi != (']', false),
    }
}

/// Whether one member can stand behind another: an unquoted `-` behind a single
/// character would make a range of it.
pub open spec fn can_follow(m: Member, next: Member) -> bool {
    m is One ==> member_text(next)[0] != ('-', false)
}

/// Whether the members can stand one behind the other.
pub open spec fn can_stand_together(ms: Seq<Member>) -> bool {
    &&& forall|k: int| 0 <= k < ms.len() ==> can_stand(#[trigger] ms[k])
    &&& forall|k: int| 0 < k < ms.len() ==> can_follow(ms[k - 1], #[trigger] ms[k])
}

/// Whether one of the members takes the character `x`.
pub open spec fn one_takes(ms: Seq<Member>, x: char) -> bool {
    exists|k: int| 0 <= k < ms.len() && takes(#[trigger] ms[k], x)
}

/// `text` if `there`, else nothing.
pub open spec fn optional(there: bool, text: Pattern) -> Pattern {
    if there {
        text
    } else {
        Seq::empty()
    }
}

/// How a class is written: `sign` is the `!` or `^` that negates it, `bracket` tells
/// whether a `]` comes first, `lead` and `trail` whether a `-` stands before and
/// behind the members.
pub struct Written {
    pub sign: Option<char>,
    pub bracket: bool,
    pub lead: bool,
    pub members: Seq<Member>,
    pub trail: bool,
}

/// The characters of a class between its opening bracket and its closing one.
pub open spec fn written_text(w: Written) -> Pattern {
    optional(w.sign is Some, seq![(w.sign->0, false)]) + optional(w.bracket, seq![(']', false)])
        + optional(w.lead, seq![('-', false)]) + members_text(w.members) + optional(
        w.trail,
        seq![('-', false)],
    )
}

/// Whether a class is written as it should be: it holds something, each member can
/// stand where it does, and the first is not mistaken for a sign or a bracket.
pub open spec fn well_written(w: Written) -> bool {
    &&& w.sign is Some ==> w.sign->0 == '!' || w.sign->0 == '^'
    &&& w.bracket || w.lead || w.members.len() > 0 || w.trail
    &&& can_stand_together(w.members)
    &&& w.lead && w.members.len() > 0 ==> member_text(w.members[0])[0] != ('-', false)
    &&& !w.bracket && !w.lead && w.members.len() > 0 ==> {
        let first = member_text(w.members[0])[0];
        &&& first.0 != ']'
        &&& w.sign is None ==> first != ('!', false) && first != ('^', false)
    }
}

/// The ranges that the members stand for.
spec fn ranges(ms: Seq<Member>) -> Seq<(char, char)> {
    ms.map_values(
        |m: Member|
            match m {
                Member::One(c) => (c.0, c.0),
                Member::Range(lo, hi) => (lo.0, hi.0),
            },
    )
}

/// Whether `text` stands in `pat` from position `i` on.
spec fn stands_at(pat: Pattern, i: int, text: Pattern) -> bool {
    &&& 0 <= i
    &&& i + text.len() <= pat.len()
    &&& forall|k: int| 0 <= k < text.len() ==> pat[i + k] == #[trigger] text[k]
}

proof fn lemma_stands_apart(pat: Pattern, i: int, a: Pattern, b: Pattern)
    requires
        stands_at(pat, i, a + b),
    ensures
        stands_at(pat, i, a),
        stands_at(pat, i + a.len(), b),
{
    assert forall|k: int| 0 <= k < a.len() implies pat[i + k] == #[trigger] a[k] by {
        assert((a + b)[k] == a[k]);
    }
    assert forall|k: int| 0 <= k < b.len() implies pat[i + a.len() + k] == #[trigger] b[k] by {
        assert((a + b)[a.len() + k] == b[k]);
    }
}

/// Members that are written in a row are all read.
proof fn lemma_members_read(
    pat: Pattern,
    negated: bool,
    found: Seq<(char, char)>,
    i: int,
    ms: Seq<Member>,
)
    requires
        stands_at(pat, i, members_text(ms)),
        can_stand_together(ms),
        ({
            let e = i + members_text(ms).len();
            sign_at(pat, e, ']') || (sign_at(pat, e, '-') && sign_at(pat, e + 1, ']'))
        }),
    ensures
        class_rest(pat, negated, found, i) == class_rest(
            pat,
            negated,
            found + ranges(ms),
            i + members_text(ms).len(),
        ),
    decreases ms.len(),
{
    if ms.len() == 0 {
        assert(found + ranges(ms) =~= found);
    } else {
        let m = ms[0];
        let rest = ms.skip(1);
        let t = member_text(m);
        assert(can_stand(ms[0]));
        lemma_stands_apart(pat, i, t, members_text(rest));
        assert forall|k: int| 0 <= k < rest.len() implies can_stand(#[trigger] rest[k]) by {
            assert(rest[k] == ms[k + 1]);
        }
        assert forall|k: int| 0 < k < rest.len() implies can_follow(
            rest[k - 1],
            #[trigger] rest[k],
        ) by {
            assert(rest[k] == ms[k + 1]);
            assert(can_follow(ms[(k + 1) - 1], ms[k + 1]));
        }
        let next = i + t.len();
        assert(pat[i] == t[0]);
        let range = ranges(ms)[0];
        match m {
            Member::One(c) => {
                if rest.len() > 0 {
                    assert(rest[0] == ms[1]);
                    assert(can_follow(ms[1 - 1], ms[1]));
                    let u = member_text(rest[0]);
                    lemma_stands_apart(pat, next, u, members_text(rest.skip(1)));
                    assert(pat[next] == u[0]);
                }
                assert(class_rest(pat, negated, found, i) == class_rest(
                    pat,
                    negated,
                    found.push(range),
                    next,
                ));
            },
            Member::Range(lo, hi) => {
                assert(pat[i + 1] == t[1]);
                assert(pat[i + 2] == t[2]);
                assert(class_rest(pat, negated, found, i) == class_rest(
                    pat,
                    negated,
                    found.push(range),
                    next,
                ));
            },
        }
        lemma_members_read(pat, negated, found.push(range), next, rest);
        assert(found.push(range) + ranges(rest) =~= found + ranges(ms));
    }
}

proof fn lemma_ranges_take(ms: Seq<Member>, x: char)
    ensures
        among(ranges(ms), x) <==> one_takes(ms, x),
{
    if among(ranges(ms), x) {
        let k = choose|k: int|
            0 <= k < ranges(ms).len() && (#[trigger] ranges(ms)[k]).0 <= x <= ranges(ms)[k].1;
        assert(takes(ms[k], x));
    }
    if one_takes(ms, x) {
        let k = choose|k: int| 0 <= k < ms.len() && takes(#[trigger] ms[k], x);
        assert(ranges(ms)[k].0 <= x <= ranges(ms)[k].1);
    }
}

proof fn lemma_among_add(a: Seq<(char, char)>, b: Seq<(char, char)>, x: char)
    ensures
        among(a + b, x) <==> among(a, x) || among(b, x),
{
    let ab = a + b;
    if among(ab, x) {
        let k = choose|k: int| 0 <= k < ab.len() && (#[trigger] ab[k]).0 <= x <= ab[k].1;
        if k < a.len() {
            assert(a[k].0 <= x <= a[k].1);
        } else {
            assert(b[k - a.len()].0 <= x <= b[k - a.len()].1);
        }
    }
    if among(a, x) {
        let k = choose|k: int| 0 <= k < a.len() && (#[trigger] a[k]).0 <= x <= a[k].1;
        assert(ab[k].0 <= x <= ab[k].1);
    }
    if among(b, x) {
        let k = choose|k: int| 0 <= k < b.len() && (#[trigger] b[k]).0 <= x <= b[k].1;
        assert(ab[a.len() + k].0 <= x <= ab[a.len() + k].1);
    }
}

proof fn lemma_among_one(c: char, x: char)
    ensures
        among(seq![(c, c)], x) <==> x == c,
{
    let one = seq![(c, c)];
    if x == c {
        assert(one[0].0 <= x <= one[0].1);
    }
}

/// The ranges of a class, in the order in which they are read.
spec fn all_ranges(w: Written) -> Seq<(char, char)> {
    (if w.bracket {
        seq![(']', ']')]
    } else {
        Seq::empty()
    }) + (if w.lead {
        seq![('-', '-')]
    } else {
        Seq::empty()
    }) + ranges(w.members) + (if w.trail {
        seq![('-', '-')]
    } else {
        Seq::empty()
    })
}

proof fn lemma_class_is_read(pat: Pattern, i: int, w: Written)
    requires
        well_written(w),
        stands_at(pat, i, written_text(w) + seq![(']', false)]),
    ensures
        class_at(pat, i) == Some(
            Class {
                negated: w.sign is Some,
                members: all_ranges(w),
                end: i + written_text(w).len() + 1,
            },
        ),
{
    let t0 = optional(w.sign is Some, seq![(w.sign->0, false)]);
    let t1 = optional(w.bracket, seq![(']', false)]);
    let t2 = optional(w.lead, seq![('-', false)]);
    let t3 = members_text(w.members);
    let t4 = optional(w.trail, seq![('-', false)]);
    let close: Pattern = seq![(']', false)];
    lemma_stands_apart(pat, i, written_text(w), close);
    lemma_stands_apart(pat, i, t0 + t1 + t2 + t3, t4);
    lemma_stands_apart(pat, i, t0 + t1 + t2, t3);
    lemma_stands_apart(pat, i, t0 + t1, t2);
    lemma_stands_apart(pat, i, t0, t1);
    let i1 = i + t0.len();
    let i2 = i1 + t1.len();
    let i3 = i2 + t2.len();
    let i4 = i3 + t3.len();
    let i5 = i4 + t4.len();
    assert(i5 == i + written_text(w).len());
    assert(pat[i5] == close[0]);
    assert(w.sign is Some ==> pat[i] == t0[0]);
    assert(w.bracket ==> pat[i1] == t1[0]);
    assert(w.lead ==> pat[i2] == t2[0]);
    assert(w.trail ==> pat[i4] == t4[0]);
    if w.members.len() > 0 {
        let u = member_text(w.members[0]);
        lemma_stands_apart(pat, i3, u, members_text(w.members.skip(1)));
        assert(pat[i3] == u[0]);
        assert(can_stand(w.members[0]));
    }
    let negated = w.sign is Some;
    let none = Seq::<(char, char)>::empty();
    let r1 = if w.bracket {
        seq![(']', ']')]
    } else {
        none
    };
    let r2 = if w.lead {
        seq![('-', '-')]
    } else {
        none
    };
    let r3 = ranges(w.members);
    let r4 = if w.trail {
        seq![('-', '-')]
    } else {
        none
    };
    assert(negated == (sign_at(pat, i, '!') || sign_at(pat, i, '^')));
    assert(class_at(pat, i) == class_rest(pat, negated, r1, i2));
    if w.lead {
        assert(r1.push(('-', '-')) =~= r1 + r2);
    } else {
        assert(r1 =~= r1 + r2);
    }
    assert(class_rest(pat, negated, r1, i2) == class_rest(pat, negated, r1 + r2, i3));
    lemma_members_read(pat, negated, r1 + r2, i3, w.members);
    if w.trail {
        assert((r1 + r2 + r3).push(('-', '-')) =~= r1 + r2 + r3 + r4);
    } else {
        assert(r1 + r2 + r3 =~= r1 + r2 + r3 + r4);
    }
    assert(class_rest(pat, negated, r1 + r2 + r3, i4) == class_rest(
        pat,
        negated,
        r1 + r2 + r3 + r4,
        i5,
    ));
}

/// A class holds every member that is written in it, and no other character: `c`
/// takes itself, `lo-hi` all from `lo` to `hi`, and a `]` that comes first and a `-` at
/// either end take themselves too. A `!` or `^` in front turns that round. The class ends at
/// its closing bracket.
pub proof fn law_class_takes_its_members(before: Pattern, w: Written, rest: Pattern, x: char)
    requires
        well_written(w),
    ensures
        ({
            let pat = before + seq![('[', false)] + written_text(w) + seq![(']', false)] + rest;
            let class = class_at(pat, before.len() as int + 1);
            &&& class is Some
            &&& class->0.negated == w.sign is Some
            &&& class->0.end == before.len() + 1 + written_text(w).len() + 1
            &&& among(class->0.members, x) <==> (w.bracket && x == ']') || ((w.lead || w.trail) && x
                == '-') || one_takes(w.members, x)
        }),
{
    let pat = before + seq![('[', false)] + written_text(w) + seq![(']', false)] + rest;
    let i = before.len() as int + 1;
    let inner = written_text(w) + seq![(']', false)];
    assert forall|k: int| 0 <= k < inner.len() implies pat[i + k] == #[trigger] inner[k] by {
        if k < written_text(w).len() {
            assert(inner[k] == written_text(w)[k]);
        }
    }
    lemma_class_is_read(pat, i, w);
    let none = Seq::<(char, char)>::empty();
    let r1 = if w.bracket {
        seq![(']', ']')]
    } else {
        none
    };
    let r2 = if w.lead {
        seq![('-', '-')]
    } else {
        none
    };
    let r3 = ranges(w.members);
    let r4 = if w.trail {
        seq![('-', '-')]
    } else {
        none
    };
    lemma_among_add(r1 + r2 + r3, r4, x);
    lemma_among_add(r1 + r2, r3, x);
    lemma_among_add(r1, r2, x);
    lemma_among_one(']', x);
    lemma_among_one('-', x);
    lemma_ranges_take(w.members, x);
}

/// A class in a pattern takes exactly one character of the name, one that it holds,
/// or, if it is negated, one that it does not hold.
pub proof fn law_class_matches_one_character(
    before: Pattern,
    w: Written,
    rest: Pattern,
    name: Seq<char>,
    j: int,
)
    requires
        well_written(w),
        0 <= j,
    ensures
        ({
            let class = seq![('[', false)] + written_text(w) + seq![(']', false)];
            let pat = before + class + rest;
            matches_from(pat, before.len() as int, name, j) <==> {
                &&& j < name.len()
                &&& w.sign is None <==> (w.bracket && name[j] == ']') || ((w.lead || w.trail)
                    && name[j] == '-') || one_takes(w.members, name[j])
                &&& matches_from(pat, (before + class).len() as int, name, j + 1)
            }
        }),
{
    let class = seq![('[', false)] + written_text(w) + seq![(']', false)];
    let pat = before + class + rest;
    let i = before.len() as int;
    assert(pat =~= before + seq![('[', false)] + written_text(w) + seq![(']', false)] + rest);
    assert(pat[i] == ('[', false));
    if j < name.len() {
        law_class_takes_its_members(before, w, rest, name[j]);
    } else {
        law_class_takes_its_members(before, w, rest, ' ');
    }
}

proof fn lemma_never_closed(pat: Pattern, negated: bool, found: Seq<(char, char)>, i: int)
    requires
        0 <= i,
        forall|k: int| i <= k < pat.len() ==> #[trigger] pat[k] != (']', false),
    ensures
        class_rest(pat, negated, found, i) is None,
    decreases pat.len() - i,
{
    if i < pat.len() {
        assert(pat[i] != (']', false));
        if sign_at(pat, i + 1, '-') && i + 2 < pat.len() && !sign_at(pat, i + 2, ']') {
            lemma_never_closed(pat, negated, found.push((pat[i].0, pat[i + 2].0)), i + 3);
        } else {
            lemma_never_closed(pat, negated, found.push((pat[i].0, pat[i].0)), i + 1);
        }
    }
}

/// An opening bracket that no unquoted `]` follows matches itself. A `]` right behind
/// the bracket, or behind its `!` or `^`, does not close it.
pub proof fn law_bracket_without_close_is_literal(
    pat: Pattern,
    i: int,
    name: Seq<char>,
    j: int,
)
    requires
        sign_at(pat, i, '['),
        ({
            let first = if i + 1 < pat.len() && (pat[i + 1] == ('!', false) || pat[i + 1] == (
                '^',
                false,
            )) {
                i + 2
            } else {
                i + 1
            };
            forall|k: int| first < k < pat.len() ==> #[trigger] pat[k] != (']', false)
        }),
        0 <= j,
    ensures
        matches_from(pat, i, name, j) <==> j < name.len() && name[j] == '[' && matches_from(
            pat,
            i + 1,
            name,
            j + 1,
        ),
{
    let negated = sign_at(pat, i + 1, '!') || sign_at(pat, i + 1, '^');
    let first = if negated {
        i + 2
    } else {
        i + 1
    };
    if first < pat.len() && pat[first].0 == ']' {
        lemma_never_closed(pat, negated, seq![(']', ']')], first + 1);
    } else {
        lemma_never_closed(pat, negated, Seq::empty(), first);
    }
}

/// A `?` takes one character, whichever it is; any other character that is quoted
/// or no wildcard takes itself. The end of a pattern matches the end of a name.
pub proof fn law_pattern_matches_step_by_step(pat: Pattern, i: int, name: Seq<char>, j: int)
    requires
        0 <= i,
        0 <= j <= name.len(),
    ensures
        i == pat.len() ==> (matches_from(pat, i, name, j) <==> j == name.len()),
        i < pat.len() && pat[i] == ('?', false) ==> (matches_from(pat, i, name, j) <==> j
            < name.len() && matches_from(pat, i + 1, name, j + 1)),
        i < pat.len() && (pat[i].1 || (pat[i].0 != '?' && pat[i].0 != '*' && pat[i].0 != '['))
            ==> (matches_from(pat, i, name, j) <==> j < name.len() && name[j] == pat[i].0
            && matches_from(pat, i + 1, name, j + 1)),
{
}

/// A pattern picks the names that it matches, but a name that starts with `.` only
/// if it starts with `.` itself.
pub proof fn law_patterns_pick_what_they_match(pat: Pattern, name: Seq<char>)
    ensures
        picks(pat, name) <==> matches_from(pat, 0, name, 0) && (name.len() > 0 && name[0] == '.'
            ==> pat.len() > 0 && pat[0].0 == '.'),
{
}

// ---------------------------------------------------------------------
// What a pattern finds
// ---------------------------------------------------------------------

/// Whether `path` is found in the directory tree `tree` when the components are
/// matched one after the other, from the directory `base` on. All that match on the
/// way must be directories, and the last one too if `dirs` says so.
pub open spec fn finds(
    tree: spec_fn(Seq<char>) -> Seq<Entry>,
    base: Seq<char>,
    comps: Seq<Pattern>,
    dirs: bool,
    path: Seq<char>,
) -> bool
    decreases comps.len(),
{
    if comps.len() == 0 {
        path == base
    } else {
        exists|k: int|
            0 <= k < tree(base).len() && picks(comps[0], (#[trigger] tree(base)[k]).0) && (
            comps.len() > 1 || dirs ==> tree(base)[k].1) && finds(
                tree,
                child_path(base, tree(base)[k].0),
                comps.skip(1),
                dirs,
                path,
            )
    }
}

/// Whether `path` is an entry of the directory `dir` that the component matches.
spec fn found_in(
    tree: spec_fn(Seq<char>) -> Seq<Entry>,
    dir: Seq<char>,
    comp: Pattern,
    dirs: bool,
    path: Seq<char>,
) -> bool {
    exists|k: int|
        0 <= k < tree(dir).len() && fits(comp, #[trigger] tree(dir)[k], dirs) && path
            == child_path(dir, tree(dir)[k].0)
}

/// Whether `mid` is found on the way and `path` in it.
spec fn through(
    tree: spec_fn(Seq<char>) -> Seq<Entry>,
    base: Seq<char>,
    comps: Seq<Pattern>,
    last: Pattern,
    dirs: bool,
    mid: Seq<char>,
    path: Seq<char>,
) -> bool {
    finds(tree, base, comps, true, mid) && found_in(tree, mid, last, dirs, path)
}

/// To match one more component is to match it in what the others find.
proof fn lemma_finds_push(
    tree: spec_fn(Seq<char>) -> Seq<Entry>,
    base: Seq<char>,
    comps: Seq<Pattern>,
    last: Pattern,
    dirs: bool,
    path: Seq<char>,
)
    ensures
        finds(tree, base, comps.push(last), dirs, path) <==> exists|mid: Seq<char>| #[trigger]
            through(tree, base, comps, last, dirs, mid, path),
    decreases comps.len(),
{
    let all = comps.push(last);
    if comps.len() == 0 {
        assert(all[0] == last);
        assert(all.skip(1) =~= Seq::empty());
        if finds(tree, base, all, dirs, path) {
            let k = choose|k: int|
                0 <= k < tree(base).len() && picks(all[0], (#[trigger] tree(base)[k]).0) && (
                all.len() > 1 || dirs ==> tree(base)[k].1) && finds(
                    tree,
                    child_path(base, tree(base)[k].0),
                    all.skip(1),
                    dirs,
                    path,
                );
            assert(fits(last, tree(base)[k], dirs));
            assert(through(tree, base, comps, last, dirs, base, path));
        }
        if exists|mid: Seq<char>| #[trigger] through(tree, base, comps, last, dirs, mid, path) {
            let mid = choose|mid: Seq<char>| #[trigger]
                through(tree, base, comps, last, dirs, mid, path);
            let k = choose|k: int|
                0 <= k < tree(base).len() && fits(last, #[trigger] tree(base)[k], dirs) && path
                    == child_path(base, tree(base)[k].0);
            assert(picks(all[0], tree(base)[k].0));
            assert(finds(tree, child_path(base, tree(base)[k].0), all.skip(1), dirs, path));
            assert(finds(tree, base, all, dirs, path));
        }
    } else {
        let rest = comps.skip(1);
        assert(all[0] == comps[0]);
        assert(all.skip(1) =~= rest.push(last));
        if finds(tree, base, all, dirs, path) {
            let k = choose|k: int|
                0 <= k < tree(base).len() && picks(all[0], (#[trigger] tree(base)[k]).0) && (
                all.len() > 1 || dirs ==> tree(base)[k].1) && finds(
                    tree,
                    child_path(base, tree(base)[k].0),
                    all.skip(1),
                    dirs,
                    path,
                );
            let next = child_path(base, tree(base)[k].0);
            lemma_finds_push(tree, next, rest, last, dirs, path);
            let mid = choose|mid: Seq<char>| #[trigger]
                through(tree, next, rest, last, dirs, mid, path);
            assert(picks(comps[0], tree(base)[k].0));
            assert(finds(tree, base, comps, true, mid));
            assert(through(tree, base, comps, last, dirs, mid, path));
        }
        if exists|mid: Seq<char>| #[trigger] through(tree, base, comps, last, dirs, mid, path) {
            let mid = choose|mid: Seq<char>| #[trigger]
                through(tree, base, comps, last, dirs, mid, path);
            let k = choose|k: int|
                0 <= k < tree(base).len() && picks(comps[0], (#[trigger] tree(base)[k]).0) && (
                comps.len() > 1 || true ==> tree(base)[k].1) && finds(
                    tree,
                    child_path(base, tree(base)[k].0),
                    comps.skip(1),
                    true,
                    mid,
                );
            let next = child_path(base, tree(base)[k].0);
            assert(through(tree, next, rest, last, dirs, mid, path));
            lemma_finds_push(tree, next, rest, last, dirs, path);
            assert(picks(all[0], tree(base)[k].0));
            assert(finds(tree, next, all.skip(1), dirs, path));
            assert(finds(tree, base, all, dirs, path));
        }
    }
}

/// What a walk reaches is what the components find.
proof fn lemma_reached_is_found<L: Fn(&str) -> Vec<(String, bool)>>(
    list: L,
    tree: spec_fn(Seq<char>) -> Seq<Entry>,
    pat: Pattern,
    lists: Seq<Seq<Seq<Entry>>>,
    n: int,
    path: Seq<char>,
)
    requires
        shows(list, tree),
        walks(list, pat, lists),
        0 <= n <= components(pat, 0).len(),
    ensures
        reached(pat, lists, n).contains(path) <==> finds(
            tree,
            root(pat),
            components(pat, 0).take(n),
            n < components(pat, 0).len() || ends_in_slash(pat),
            path,
        ),
    decreases n,
{
    let comps = components(pat, 0);
    let dirs = n < comps.len() || ends_in_slash(pat);
    if n == 0 {
        assert(comps.take(0) =~= Seq::empty());
        let one = seq![root(pat)];
        assert(one[0] == root(pat));
    } else {
        let m = n - 1;
        let bases = reached(pat, lists, m);
        let last = comps[m];
        assert(comps.take(n) =~= comps.take(m).push(last));
        assert(level_listed(list, pat, lists, m));
        let answers = lists[m];
        assert forall|b: int| 0 <= b < bases.len() implies #[trigger] answers[b] == tree(
            bases[b],
        ) by {
            assert(lists_as(list, bases[b], answers[b]));
        }
        law_step_reaches_matches(bases, last, answers, dirs, path);
        lemma_finds_push(tree, root(pat), comps.take(m), last, dirs, path);
        if has_match(bases, last, answers, dirs, path) {
            let (b, k) = choose|b: int, k: int|
                0 <= b < bases.len() && 0 <= k < answers[b].len() && fits(
                    last,
                    #[trigger] answers[b][k],
                    dirs,
                ) && path == child_path(bases[b], answers[b][k].0);
            let mid = bases[b];
            assert(bases.contains(mid));
            lemma_reached_is_found(list, tree, pat, lists, m, mid);
            assert(answers[b] == tree(mid));
            assert(fits(last, tree(mid)[k], dirs));
            assert(found_in(tree, mid, last, dirs, path));
            assert(through(tree, root(pat), comps.take(m), last, dirs, mid, path));
        }
        if exists|mid: Seq<char>| #[trigger]
            through(tree, root(pat), comps.take(m), last, dirs, mid, path) {
            let mid = choose|mid: Seq<char>| #[trigger]
                through(tree, root(pat), comps.take(m), last, dirs, mid, path);
            lemma_reached_is_found(list, tree, pat, lists, m, mid);
            let b = choose|b: int| 0 <= b < bases.len() && bases[b] == mid;
            let k = choose|k: int|
                0 <= k < tree(mid).len() && fits(last, #[trigger] tree(mid)[k], dirs) && path
                    == child_path(mid, tree(mid)[k].0);
            assert(answers[b] == tree(mid));
            assert(fits(last, answers[b][k], dirs));
            assert(has_match(bases, last, answers, dirs, path));
        }
    }
}

/// A pattern with an unquoted `*`, `?` or `[` expands, in order, to exactly the
/// paths that its components find: from the root directory if it starts with `/`,
/// else from the current one. If it ends in `/`, these are directories, and the `/`
/// stays at their end.
pub proof fn law_glob_finds_exactly<L: Fn(&str) -> Vec<(String, bool)>>(
    list: L,
    tree: spec_fn(Seq<char>) -> Seq<Entry>,
    pat: Pattern,
    paths: Seq<Seq<char>>,
    path: Seq<char>,
    k: int,
)
    requires
        shows(list, tree),
        globs_to(list, pat, paths),
        0 <= k < pat.len(),
        pat[k] == ('*', false) || pat[k] == ('?', false) || pat[k] == ('[', false),
    ensures
        ({
            let start = if pat[0].0 == '/' {
                seq!['/']
            } else {
                Seq::empty()
            };
            let comps = components(pat, 0);
            &&& paths.contains(path) <==> if pat.last().0 == '/' {
                path.len() > 0 && path.last() == '/' && finds(
                    tree,
                    start,
                    comps,
                    true,
                    path.drop_last(),
                )
            } else {
                finds(tree, start, comps, false, path)
            }
            &&& forall|i: int, j: int|
                0 <= i < j < paths.len() ==> !before(#[trigger] paths[j], #[trigger] paths[i])
        }),
{
    broadcast use vstd::seq_lib::group_to_multiset_ensures;

    assert(has_wildcard(pat));
    let lists = choose|lists: Seq<Seq<Seq<Entry>>>| #[trigger]
        walks(list, pat, lists) && sorted(paths) && paths.to_multiset() == found(
            pat,
            lists,
        ).to_multiset();
    let comps = components(pat, 0);
    let n = comps.len() as int;
    let all = found(pat, lists);
    assert(comps.take(n) =~= comps);
    assert(root(pat) =~= if pat[0].0 == '/' {
        seq!['/']
    } else {
        Seq::empty()
    });
    assert(paths.contains(path) <==> all.contains(path)) by {
        assert(paths.contains(path) <==> paths.to_multiset().count(path) > 0);
        assert(all.contains(path) <==> all.to_multiset().count(path) > 0);
    }
    if pat.last().0 == '/' {
        let front = reached(pat, lists, n);
        assert(all == front.map_values(|p: Seq<char>| p.push('/')));
        if all.contains(path) {
            let m = choose|m: int| 0 <= m < all.len() && all[m] == path;
            assert(path == front[m].push('/'));
            assert(path.drop_last() =~= front[m]);
            assert(front.contains(front[m]));
            lemma_reached_is_found(list, tree, pat, lists, n, front[m]);
        }
        if path.len() > 0 && path.last() == '/' {
            let p = path.drop_last();
            assert(path =~= p.push('/'));
            lemma_reached_is_found(list, tree, pat, lists, n, p);
            if front.contains(p) {
                let m = choose|m: int| 0 <= m < front.len() && front[m] == p;
                assert(all[m] == path);
            }
        }
    } else {
        lemma_reached_is_found(list, tree, pat, lists, n, path);
    }
}

/// A text without an unquoted `*`, `?` or `[` is no pattern and expands to no paths.
pub proof fn law_plain_text_is_no_pattern<L: Fn(&str) -> Vec<(String, bool)>>(
    list: L,
    pat: Pattern,
    paths: Seq<Seq<char>>,
)
    requires
        globs_to(list, pat, paths),
        forall|k: int|
            0 <= k < pat.len() ==> (#[trigger] pat[k]).1 || (pat[k].0 != '*' && pat[k].0 != '?'
                && pat[k].0 != '['),
    ensures
        paths.len() == 0,
{
}

/// The path of an entry is its name behind the directory, with one `/` between
/// them; the current directory is not written.
pub proof fn law_paths_are_joined_with_a_slash(base: Seq<char>, name: Seq<char>)
    ensures
        child_path(Seq::empty(), name) == name,
        child_path(base.push('/'), name) == base + seq!['/'] + name,
        base.len() > 0 && base.last() != '/' ==> child_path(base, name) == base + seq!['/'] + name,
{
    assert(base.push('/') =~= base + seq!['/']);
}

proof fn lemma_slash_is(pat: Pattern, i: int, e: int)
    requires
        0 <= i <= e <= pat.len(),
        forall|k: int| i <= k < e ==> (#[trigger] pat[k]).0 != '/',
        e < pat.len() ==> pat[e].0 == '/',
    ensures
        slash_from(pat, i) == e,
    decreases e - i,
{
    if i < e {
        lemma_slash_is(pat, i + 1, e);
    }
}

proof fn lemma_components_shift(a: Pattern, b: Pattern, i: int)
    requires
        0 <= i,
    ensures
        components(a + b, a.len() + i) == components(b, i),
    decreases b.len() + 1 - i,
{
    if i < b.len() {
        lemma_slash_from(b, i);
        let e = slash_from(b, i);
        let s = a + b;
        let d = a.len() as int;
        assert forall|k: int| d + i <= k < d + e implies (#[trigger] s[k]).0 != '/' by {
            assert(s[k] == b[k - d]);
        }
        if e < b.len() {
            assert(s[d + e] == b[e]);
        }
        lemma_slash_is(s, d + i, d + e);
        lemma_components_shift(a, b, e + 1);
        assert(s.subrange(d + i, d + e) =~= b.subrange(i, e));
        assert(d + e + 1 == d + (e + 1));
    }
}

proof fn lemma_components_prefix(a: Pattern, b: Pattern, quoted: bool, i: int)
    requires
        0 <= i <= a.len() + 1,
    ensures
        components(a + seq![('/', quoted)] + b, i) == components(a, i) + components(b, 0),
    decreases a.len() + 1 - i,
{
    let front = a + seq![('/', quoted)];
    let s = front + b;
    if i == a.len() + 1 {
        lemma_components_shift(front, b, 0);
        assert(components(a, i) + components(b, 0) =~= components(b, 0));
    } else if i == a.len() {
        assert(s[i].0 == '/');
        lemma_slash_is(s, i, i);
        lemma_components_prefix(a, b, quoted, i + 1);
        assert(components(a, i) =~= components(a, i + 1));
    } else {
        lemma_slash_from(a, i);
        let e = slash_from(a, i);
        assert forall|k: int| i <= k < e implies (#[trigger] s[k]).0 != '/' by {
            assert(s[k] == a[k]);
        }
        if e < a.len() {
            assert(s[e] == a[e]);
        }
        lemma_slash_is(s, i, e);
        lemma_components_prefix(a, b, quoted, e + 1);
        if e > i {
            assert(s.subrange(i, e) =~= a.subrange(i, e));
            let one = seq![a.subrange(i, e)];
            assert(components(a, i) == one + components(a, e + 1));
            assert(one + (components(a, e + 1) + components(b, 0)) =~= components(a, i)
                + components(b, 0));
        }
    }
}

/// A pattern is cut at its slashes, quoted or not; what is empty is left out.
pub proof fn law_patterns_are_cut_at_slashes(a: Pattern, b: Pattern, quoted: bool)
    ensures
        components(a + seq![('/', quoted)] + b, 0) == components(a, 0) + components(b, 0),
        (forall|k: int| 0 <= k < a.len() ==> (#[trigger] a[k]).0 != '/') ==> components(a, 0) == (
        if a.len() == 0 {
            Seq::empty()
        } else {
            seq![a]
        }),
{
    lemma_components_prefix(a, b, quoted, 0);
    if a.len() > 0 && forall|k: int| 0 <= k < a.len() ==> (#[trigger] a[k]).0 != '/' {
        lemma_slash_is(a, 0, a.len() as int);
        assert(a.subrange(0, a.len() as int) =~= a);
        assert(components(a, a.len() as int + 1) =~= Seq::empty());
        assert(components(a, 0) =~= seq![a]);
    }
}

/// Whether the names in a directory tree are as a file system has them: none is
/// empty or holds a `/`, and none occurs twice in a directory.
pub open spec fn names_are_proper(tree: spec_fn(Seq<char>) -> Seq<Entry>) -> bool {
    &&& forall|dir: Seq<char>, k: int|
        0 <= k < tree(dir).len() ==> (#[trigger] tree(dir)[k]).0.len() > 0
            && !tree(dir)[k].0.contains('/')
    &&& forall|dir: Seq<char>, j: int, k: int|
        0 <= j < k < tree(dir).len() ==> (#[trigger] tree(dir)[j]).0 != (#[trigger] tree(dir)[k]).0
}

/// Whether no path occurs twice.
pub open spec fn all_differ(paths: Seq<Seq<char>>) -> bool {
    forall|i: int, j: int|
        0 <= i < j < paths.len() ==> #[trigger] paths[i] != #[trigger] paths[j]
}

/// Names without a `/` in directories whose paths do not end in one have different
/// paths, unless both are the same.
proof fn lemma_child_differs(a: Seq<char>, x: Seq<char>, b: Seq<char>, y: Seq<char>)
    requires
        !x.contains('/'),
        !y.contains('/'),
        child_path(a, x) == child_path(b, y),
        a == b || (a.len() > 0 && a.last() != '/' && b.len() > 0 && b.last() != '/'),
    ensures
        a == b,
        x == y,
{
    let p = child_path(a, x);
    let q = child_path(b, y);
    if a.len() == 0 {
        assert(a == b);
    } else {
        let fa = if a.last() == '/' {
            a
        } else {
            a.push('/')
        };
        let fb = if b.last() == '/' {
            b
        } else {
            b.push('/')
        };
        assert(p == fa + x);
        assert(q == fb + y);
        let n = fa.len() as int;
        let m = fb.len() as int;
        assert(p[n - 1] == '/');
        assert(q[m - 1] == '/');
        if n < m {
            assert(p[m - 1] == x[m - 1 - n]);
            assert(x.contains(x[m - 1 - n]));
        }
        if m < n {
            assert(q[n - 1] == y[n - 1 - m]);
            assert(y.contains(y[n - 1 - m]));
        }
        assert(fa =~= p.take(n));
        assert(fb =~= q.take(m));
        assert(x =~= p.skip(n));
        assert(y =~= q.skip(m));
        if a.last() != '/' && b.last() != '/' {
            assert(a =~= fa.drop_last());
            assert(b =~= fb.drop_last());
        }
    }
}

proof fn lemma_picked_differ(
    base: Seq<char>,
    pat: Pattern,
    entries: Seq<Entry>,
    dirs: bool,
)
    requires
        forall|k: int|
            0 <= k < entries.len() ==> (#[trigger] entries[k]).0.len() > 0
                && !entries[k].0.contains('/'),
        forall|j: int, k: int|
            0 <= j < k < entries.len() ==> (#[trigger] entries[j]).0 != (#[trigger] entries[k]).0,
    ensures
        all_differ(picked(base, pat, entries, dirs)),
    decreases entries.len(),
{
    if entries.len() > 0 {
        let e0 = entries.drop_last();
        let n = entries.len() - 1;
        assert forall|k: int| 0 <= k < e0.len() implies (#[trigger] e0[k]).0.len() > 0
            && !e0[k].0.contains('/') by {
            assert(e0[k] == entries[k]);
        }
        assert forall|j: int, k: int| 0 <= j < k < e0.len() implies (#[trigger] e0[j]).0 != (
        #[trigger] e0[k]).0 by {
            assert(e0[j] == entries[j] && e0[k] == entries[k]);
        }
        lemma_picked_differ(base, pat, e0, dirs);
        let x = picked(base, pat, e0, dirs);
        let all = picked(base, pat, entries, dirs);
        let last = child_path(base, entries[n].0);
        assert forall|i: int, j: int| 0 <= i < j < all.len() implies #[trigger] all[i]
            != #[trigger] all[j] by {
            if j == x.len() {
                lemma_picked(base, pat, e0, dirs, x[i]);
                assert(x.contains(x[i]));
                let k = choose|k: int|
                    0 <= k < e0.len() && fits(pat, #[trigger] e0[k], dirs) && x[i] == child_path(
                        base,
                        e0[k].0,
                    );
                assert(e0[k] == entries[k]);
                if x[i] == last {
                    lemma_child_differs(base, entries[k].0, base, entries[n].0);
                }
            } else {
                assert(all[i] == x[i] && all[j] == x[j]);
            }
        }
    }
}

proof fn lemma_level_differ(
    bases: Seq<Seq<char>>,
    pat: Pattern,
    lists: Seq<Seq<Entry>>,
    dirs: bool,
)
    requires
        bases.len() == lists.len(),
        all_differ(bases),
        bases.len() > 1 ==> forall|b: int|
            0 <= b < bases.len() ==> (#[trigger] bases[b]).len() > 0 && bases[b].last() != '/',
        forall|b: int, k: int|
            0 <= b < lists.len() && 0 <= k < lists[b].len() ==> (#[trigger] lists[b][k]).0.len() > 0
                && !lists[b][k].0.contains('/'),
        forall|b: int, j: int, k: int|
            0 <= b < lists.len() && 0 <= j < k < lists[b].len() ==> (#[trigger] lists[b][j]).0 != (
            #[trigger] lists[b][k]).0,
    ensures
        all_differ(level(bases, pat, lists, dirs)),
    decreases bases.len(),
{
    if bases.len() > 0 {
        let b0 = bases.drop_last();
        let l0 = lists.drop_last();
        let n = bases.len() - 1;
        assert forall|b: int, k: int| 0 <= b < l0.len() && 0 <= k < l0[b].len() implies (
        #[trigger] l0[b][k]).0.len() > 0 && !l0[b][k].0.contains('/') by {
            assert(l0[b][k] == lists[b][k]);
        }
        assert forall|b: int, j: int, k: int|
            0 <= b < l0.len() && 0 <= j < k < l0[b].len() implies (#[trigger] l0[b][j]).0 != (
        #[trigger] l0[b][k]).0 by {
            assert(l0[b][j] == lists[b][j] && l0[b][k] == lists[b][k]);
        }
        assert forall|i: int, j: int| 0 <= i < j < b0.len() implies #[trigger] b0[i]
            != #[trigger] b0[j] by {
            assert(b0[i] == bases[i] && b0[j] == bases[j]);
        }
        if b0.len() > 1 {
            assert forall|b: int| 0 <= b < b0.len() implies (#[trigger] b0[b]).len() > 0
                && b0[b].last() != '/' by {
                assert(b0[b] == bases[b]);
            }
        }
        lemma_level_differ(b0, pat, l0, dirs);
        let entries = lists[n];
        assert forall|k: int| 0 <= k < entries.len() implies (#[trigger] entries[k]).0.len() > 0
            && !entries[k].0.contains('/') by {
            assert(entries[k] == lists[n][k]);
        }
        assert forall|j: int, k: int| 0 <= j < k < entries.len() implies (#[trigger] entries[j]).0
            != (#[trigger] entries[k]).0 by {
            assert(entries[j] == lists[n][j] && entries[k] == lists[n][k]);
        }
        lemma_picked_differ(bases[n], pat, entries, dirs);
        let x = level(b0, pat, l0, dirs);
        let y = picked(bases[n], pat, entries, dirs);
        let all = level(bases, pat, lists, dirs);
        assert(all == x + y);
        assert forall|i: int, j: int| 0 <= i < j < all.len() implies #[trigger] all[i]
            != #[trigger] all[j] by {
            if j < x.len() {
                assert(all[i] == x[i] && all[j] == x[j]);
            } else if i >= x.len() {
                assert(all[i] == y[i - x.len()] && all[j] == y[j - x.len()]);
            } else {
                assert(all[i] == x[i] && all[j] == y[j - x.len()]);
                if all[i] == all[j] {
                    law_step_reaches_matches(b0, pat, l0, dirs, x[i]);
                    assert(x.contains(x[i]));
                    let (b, k) = choose|b: int, k: int|
                        0 <= b < b0.len() && 0 <= k < l0[b].len() && fits(
                            pat,
                            #[trigger] l0[b][k],
                            dirs,
                        ) && x[i] == child_path(b0[b], l0[b][k].0);
                    lemma_picked(bases[n], pat, entries, dirs, y[j - x.len()]);
                    assert(y.contains(y[j - x.len()]));
                    let m = choose|m: int|
                        0 <= m < entries.len() && fits(pat, #[trigger] entries[m], dirs) && y[j
                            - x.len()] == child_path(bases[n], entries[m].0);
                    assert(bases[b] == b0[b]);
                    assert(lists[b][k] == l0[b][k]);
                    assert(lists[n][m] == entries[m]);
                    assert(bases[b].len() > 0 && bases[n].len() > 0);
                    lemma_child_differs(bases[b], lists[b][k].0, bases[n], lists[n][m].0);
                }
            }
        }
    }
}

proof fn lemma_reached_differ<L: Fn(&str) -> Vec<(String, bool)>>(
    list: L,
    tree: spec_fn(Seq<char>) -> Seq<Entry>,
    pat: Pattern,
    lists: Seq<Seq<Seq<Entry>>>,
    n: int,
)
    requires
        shows(list, tree),
        walks(list, pat, lists),
        names_are_proper(tree),
        0 <= n <= components(pat, 0).len(),
    ensures
        all_differ(reached(pat, lists, n)),
        n == 0 ==> reached(pat, lists, n).len() == 1,
        n > 0 ==> forall|b: int|
            0 <= b < reached(pat, lists, n).len() ==> (#[trigger] reached(
                pat,
                lists,
                n,
            )[b]).len() > 0 && reached(pat, lists, n)[b].last() != '/',
    decreases n,
{
    if n > 0 {
        let m = n - 1;
        let comps = components(pat, 0);
        let dirs = n < comps.len() || ends_in_slash(pat);
        let bases = reached(pat, lists, m);
        let answers = lists[m];
        lemma_reached_differ(list, tree, pat, lists, m);
        assert(level_listed(list, pat, lists, m));
        assert forall|b: int| 0 <= b < bases.len() implies #[trigger] answers[b] == tree(
            bases[b],
        ) by {
            assert(lists_as(list, bases[b], answers[b]));
        }
        assert forall|b: int, k: int|
            0 <= b < answers.len() && 0 <= k < answers[b].len() implies (
        #[trigger] answers[b][k]).0.len() > 0 && !answers[b][k].0.contains('/') by {
            assert(answers[b][k] == tree(bases[b])[k]);
        }
        assert forall|b: int, j: int, k: int|
            0 <= b < answers.len() && 0 <= j < k < answers[b].len() implies (
        #[trigger] answers[b][j]).0 != (#[trigger] answers[b][k]).0 by {
            assert(answers[b][j] == tree(bases[b])[j] && answers[b][k] == tree(bases[b])[k]);
        }
        lemma_level_differ(bases, comps[m], answers, dirs);
        let all = reached(pat, lists, n);
        assert forall|b: int| 0 <= b < all.len() implies (#[trigger] all[b]).len() > 0
            && all[b].last() != '/' by {
            law_step_reaches_matches(bases, comps[m], answers, dirs, all[b]);
            assert(all.contains(all[b]));
            let (c, k) = choose|c: int, k: int|
                0 <= c < bases.len() && 0 <= k < answers[c].len() && fits(
                    comps[m],
                    #[trigger] answers[c][k],
                    dirs,
                ) && all[b] == child_path(bases[c], answers[c][k].0);
            let name = answers[c][k].0;
            assert(all[b].last() == name.last());
            assert(name.contains(name[name.len() - 1]));
        }
    }
}

/// A pattern expands to each of its paths once.
pub proof fn law_glob_finds_each_path_once<L: Fn(&str) -> Vec<(String, bool)>>(
    list: L,
    tree: spec_fn(Seq<char>) -> Seq<Entry>,
    pat: Pattern,
    paths: Seq<Seq<char>>,
)
    requires
        shows(list, tree),
        names_are_proper(tree),
        globs_to(list, pat, paths),
    ensures
        all_differ(paths),
{
    broadcast use vstd::seq_lib::group_to_multiset_ensures;

    if has_wildcard(pat) {
        let lists = choose|lists: Seq<Seq<Seq<Entry>>>| #[trigger]
            walks(list, pat, lists) && sorted(paths) && paths.to_multiset() == found(
                pat,
                lists,
            ).to_multiset();
        let n = components(pat, 0).len() as int;
        lemma_reached_differ(list, tree, pat, lists, n);
        let front = reached(pat, lists, n);
        let all = found(pat, lists);
        assert(all_differ(all)) by {
            if ends_in_slash(pat) {
                assert forall|i: int, j: int| 0 <= i < j < all.len() implies #[trigger] all[i]
                    != #[trigger] all[j] by {
                    assert(all[i] == front[i].push('/'));
                    assert(all[j] == front[j].push('/'));
                    assert(front[i] =~= all[i].drop_last());
                    assert(front[j] =~= all[j].drop_last());
                }
            }
        }
        assert(all.no_duplicates());
        all.lemma_multiset_has_no_duplicates();
        paths.lemma_multiset_has_no_duplicates_conv();
        assert(paths.no_duplicates());
    }
}

} // verus!
