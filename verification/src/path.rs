//! Directory references.

use vstd::prelude::*;

use crate::shell::Shell;
use crate::text::{find_from, index_from, lemma_index_from, same, slice_text, to_chars};

verus! {

/// Whether `s` starts with `prefix`.
pub open spec fn starts(s: Seq<char>, prefix: Seq<char>) -> bool {
    s.len() >= prefix.len() && s.take(prefix.len() as int) == prefix
}

/// Whether `s` starts with `prefix`.
pub fn starts_with(s: &str, prefix: &str) -> (r: bool)
    ensures
        r == starts(s@, prefix@),
{
    let chars: Vec<char> = to_chars(s);
    let head: Vec<char> = to_chars(prefix);
    if chars.len() < head.len() {
        return false;
    }
    let first: String = slice_text(&chars, 0, head.len());
    assert(first@ =~= s@.take(prefix@.len() as int));
    same(&first, prefix)
}

/// `path` with a leading `~` or `~/` replaced by the home directory.
pub open spec fn tilde_expanded(path: Seq<char>, home: Seq<char>) -> Seq<char> {
    if path == "~"@ {
        home
    } else if starts(path, "~/"@) {
        home + "/"@ + path.skip(2)
    } else {
        path
    }
}

/// Replaces a leading `~` or `~/` by the home directory.
pub fn expand_tilde(path: &str, home: &str) -> (r: String)
    ensures
        r@ == tilde_expanded(path@, home@),
{
    if same(path, "~") {
        home.to_owned()
    } else if starts_with(path, "~/") {
        proof {
            reveal_strlit("~/");
        }
        let chars: Vec<char> = to_chars(path);
        let rest: String = slice_text(&chars, 2, chars.len());
        assert(rest@ =~= path@.skip(2));
        let mut out: String = home.to_owned();
        out.append("/");
        out.append(&rest);
        out
    } else {
        path.to_owned()
    }
}

/// Whether a token is a directory reference rather than a command name: `.`,
/// `..`, anything that starts with `~`, anything with a `/` in it.
pub open spec fn path_like(token: Seq<char>) -> bool {
    token == ".."@ || token == "."@ || (token.len() > 0 && token[0] == '~') || token.contains('/')
}

/// Whether a bare token can be an implicit `cd`. A single word such as
/// `Documents` cannot: it is ambiguous with a command of the same name.
pub fn looks_like_path_token(token: &str) -> (r: bool)
    ensures
        r == path_like(token@),
{
    let chars: Vec<char> = to_chars(token);
    let p: usize = find_from(&chars, '/', 0);
    proof {
        lemma_index_from(token@, '/', 0);
        if p < chars@.len() {
            assert(token@[p as int] == '/');
        } else if token@.contains('/') {
            let k = choose|k: int| 0 <= k < token@.len() && token@[k] == '/';
            assert(index_from(token@, '/', 0) <= k);
        }
    }
    same(token, "..") || same(token, ".") || (chars.len() > 0 && chars[0] == '~') || p < chars.len()
}

/// The home directory, or `/` if none is set.
pub open spec fn home_in(env: Map<Seq<char>, Seq<char>>) -> Seq<char> {
    if env.dom().contains("HOME"@) {
        env["HOME"@]
    } else {
        "/"@
    }
}

impl Shell {
    /// The home directory, or `/` if none is set.
    pub fn home(&self) -> (r: String)
        ensures
            r@ == home_in(self.env@),
    {
        match self.env.get("HOME") {
            Some(home) => home,
            None => "/".to_owned(),
        }
    }
}

/// A path that does not start with `~` is left as it is.
pub proof fn law_only_a_leading_tilde_expands(path: Seq<char>, home: Seq<char>)
    requires
        path.len() == 0 || path[0] != '~',
    ensures
        tilde_expanded(path, home) == path,
{
    reveal_strlit("~");
    reveal_strlit("~/");
    if starts(path, "~/"@) {
        assert(path.take(2)[0] == path[0]);
    }
}

/// A lone `~` and a `~` in front of a `/` stand for the home directory; any other
/// `~` stays as it is.
pub proof fn law_tilde_stands_for_home(rest: Seq<char>, home: Seq<char>)
    ensures
        tilde_expanded(seq!['~'], home) == home,
        tilde_expanded(seq!['~', '/'] + rest, home) == home + seq!['/'] + rest,
        rest.len() > 0 && rest[0] != '/' ==> tilde_expanded(seq!['~'] + rest, home) == seq!['~']
            + rest,
{
    reveal_strlit("~");
    reveal_strlit("~/");
    reveal_strlit("/");
    assert("~"@ =~= seq!['~']);
    assert("~/"@ =~= seq!['~', '/']);
    assert("/"@ =~= seq!['/']);
    let path = seq!['~', '/'] + rest;
    assert(path.take(2) =~= "~/"@);
    assert(path.skip(2) =~= rest);
    assert(path.len() != 1);
    if rest.len() > 0 && rest[0] != '/' {
        let other = seq!['~'] + rest;
        assert(other.len() > 1);
        if starts(other, "~/"@) {
            assert(other.take(2)[1] == '/');
            assert(other[1] == rest[0]);
        }
    }
}

/// A directory reference is `.`, `..`, anything that starts with `~`, and anything
/// that holds a `/`.
pub proof fn law_directory_references(token: Seq<char>)
    ensures
        path_like(token) <==> token == seq!['.'] || token == seq!['.', '.'] || (token.len() > 0
            && token[0] == '~') || exists|k: int| 0 <= k < token.len() && #[trigger] token[k] == '/',
{
    reveal_strlit(".");
    reveal_strlit("..");
    assert("."@ =~= seq!['.']);
    assert(".."@ =~= seq!['.', '.']);
}

/// The home directory is what `HOME` says in the environment, or else the root.
pub proof fn law_home_is_in_the_environment(env: Map<Seq<char>, Seq<char>>)
    ensures
        env.dom().contains("HOME"@) ==> home_in(env) == env["HOME"@],
        !env.dom().contains("HOME"@) ==> home_in(env) == seq!['/'],
{
    reveal_strlit("/");
    assert("/"@ =~= seq!['/']);
}

/// A text starts with a prefix exactly if it is that prefix and more.
pub proof fn law_prefixes(s: Seq<char>, prefix: Seq<char>)
    ensures
        starts(s, prefix) <==> exists|rest: Seq<char>| s == #[trigger] (prefix + rest),
{
    if starts(s, prefix) {
        let n = prefix.len() as int;
        assert(s =~= prefix + s.skip(n)) by {
            assert forall|k: int| 0 <= k < n implies s[k] == prefix[k] by {
                assert(s.take(n)[k] == prefix[k]);
            }
        }
    }
    if exists|rest: Seq<char>| s == #[trigger] (prefix + rest) {
        assert(s.take(prefix.len() as int) =~= prefix);
    }
}

} // verus!
