//! The prompt, and where the history is kept.

use vstd::prelude::*;

use crate::path::{starts, starts_with};
use crate::redirect::text_in;
use crate::shell::Shell;
use crate::text::{same, slice_text, to_chars, trim, trimmed};

verus! {

/// `dir` with the home directory written as `~`.
pub open spec fn shortened(dir: Seq<char>, home: Seq<char>) -> Seq<char> {
    if home.len() > 0 && dir == home {
        "~"@
    } else if home.len() > 0 && starts(dir, home + "/"@) {
        "~"@ + dir.skip(home.len() as int)
    } else {
        dir
    }
}

/// The prompt of a user on a host in the directory `dir`.
pub open spec fn prompt(
    dir: Seq<char>,
    home: Seq<char>,
    user: Seq<char>,
    host: Seq<char>,
) -> Seq<char> {
    shortened(dir, home) + ": "@ + user + "@"@ + host + "\n⟩ "@
}

/// Writes `dir` with the home directory as `~`.
pub fn shorten(dir: &str, home: &str) -> (r: String)
    ensures
        r@ == shortened(dir@, home@),
{
    if home.is_empty() {
        return dir.to_owned();
    }
    if same(dir, home) {
        return "~".to_owned();
    }
    let mut inside: String = home.to_owned();
    inside.append("/");
    if starts_with(dir, &inside) {
        let chars: Vec<char> = to_chars(dir);
        let n: usize = to_chars(home).len();
        proof {
            reveal_strlit("/");
        }
        let rest: String = slice_text(&chars, n, chars.len());
        assert(rest@ =~= dir@.skip(home@.len() as int));
        let mut out: String = "~".to_owned();
        out.append(&rest);
        out
    } else {
        dir.to_owned()
    }
}

/// The value of a variable of the environment, or else `other`.
pub open spec fn env_or(
    env: Map<Seq<char>, Seq<char>>,
    name: Seq<char>,
    other: Seq<char>,
) -> Seq<char> {
    if env.dom().contains(name) {
        env[name]
    } else {
        other
    }
}

/// The first of the texts that is not blank, trimmed, or else `localhost`.
pub open spec fn host_among(
    file: Option<Seq<char>>,
    command: Option<Seq<char>>,
) -> Seq<char> {
    if file is Some && trimmed(file->0).len() > 0 {
        trimmed(file->0)
    } else if command is Some && trimmed(command->0).len() > 0 {
        trimmed(command->0)
    } else {
        "localhost"@
    }
}

/// The hostname in the contents of a file or the output of a command, if these
/// hold one.
pub fn hostname_in(contents: &str) -> (r: Option<String>)
    ensures
        r is Some == (trimmed(contents@).len() > 0),
        r is Some ==> r->0@ == trimmed(contents@),
{
    let name: String = trim(contents);
    if name.as_str().is_empty() {
        None
    } else {
        Some(name)
    }
}

/// The hostname, from what the system file holds and, failing that, what the
/// command says.
pub fn get_hostname(file: Option<String>, command: Option<String>) -> (r: String)
    ensures
        r@ == host_among(text_in(file), text_in(command)),
{
    if let Some(contents) = file {
        if let Some(name) = hostname_in(&contents) {
            return name;
        }
    }
    if let Some(output) = command {
        if let Some(name) = hostname_in(&output) {
            return name;
        }
    }
    "localhost".to_owned()
}

impl Shell {
    /// The login name: `$USER`, or `$LOGNAME`, or a placeholder.
    pub fn get_username(&self) -> (r: String)
        ensures
            r@ == env_or(self.env@, "USER"@, env_or(self.env@, "LOGNAME"@, "user"@)),
    {
        match self.env.get("USER") {
            Some(user) => user,
            None => match self.env.get("LOGNAME") {
                Some(user) => user,
                None => "user".to_owned(),
            },
        }
    }

    /// The prompt in the directory `dir` on the host `host`.
    pub fn build_prompt(&self, dir: &str, host: &str) -> (r: String)
        ensures
            r@ == prompt(
                dir@,
                env_or(self.env@, "HOME"@, Seq::empty()),
                env_or(self.env@, "USER"@, env_or(self.env@, "LOGNAME"@, "user"@)),
                host@,
            ),
    {
        let home: String = match self.env.get("HOME") {
            Some(home) => home,
            None => String::new(),
        };
        assert(home@ =~= env_or(self.env@, "HOME"@, Seq::empty()));
        let mut out: String = shorten(dir, &home);
        out.append(": ");
        out.append(&self.get_username());
        out.append("@");
        out.append(host);
        out.append("\n⟩ ");
        out
    }

    /// Where the history is kept between sessions, if there is a home directory.
    pub fn history_file_path(&self) -> (r: Option<String>)
        ensures
            r is Some == self.env@.dom().contains("HOME"@),
            r is Some ==> r->0@ == self.env@["HOME"@] + "/.lush_history"@,
    {
        match self.env.get("HOME") {
            Some(home) => {
                let mut path: String = home;
                path.append("/.lush_history");
                Some(path)
            },
            None => None,
        }
    }

    /// Where the startup script is, if there is a home directory.
    pub fn rc_file_path(&self) -> (r: Option<String>)
        ensures
            r is Some == self.env@.dom().contains("HOME"@),
            r is Some ==> r->0@ == self.env@["HOME"@] + "/.lushrc"@,
    {
        match self.env.get("HOME") {
            Some(home) => {
                let mut path: String = home;
                path.append("/.lushrc");
                Some(path)
            },
            None => None,
        }
    }
}

/// A directory in the home directory is shown behind `~/`.
pub proof fn law_home_is_shown_as_tilde(home: Seq<char>, rest: Seq<char>)
    requires
        home.len() > 0,
    ensures
        shortened(home, home) == "~"@,
        shortened(home + "/"@ + rest, home) == "~"@ + "/"@ + rest,
{
    reveal_strlit("/");
    let dir = home + "/"@ + rest;
    assert(dir.take((home + "/"@).len() as int) =~= home + "/"@);
    assert(dir.skip(home.len() as int) =~= "/"@ + rest);
    assert("~"@ + ("/"@ + rest) =~= "~"@ + "/"@ + rest);
    assert(dir.len() != home.len());
}

/// A directory outside the home directory is shown as it is, even if its name starts
/// with that of the home directory.
pub proof fn law_other_directories_are_shown_as_they_are(dir: Seq<char>, home: Seq<char>)
    requires
        dir != home || home.len() == 0,
        home.len() == 0 || forall|rest: Seq<char>| dir != #[trigger] (home + seq!['/'] + rest),
    ensures
        shortened(dir, home) == dir,
{
    reveal_strlit("/");
    assert("/"@ =~= seq!['/']);
    if home.len() > 0 && starts(dir, home + "/"@) {
        let n = (home + "/"@).len() as int;
        let rest = dir.skip(n);
        assert(dir =~= home + seq!['/'] + rest) by {
            assert forall|k: int| 0 <= k < n implies dir[k] == (home + "/"@)[k] by {
                assert(dir.take(n)[k] == (home + "/"@)[k]);
            }
        }
    }
}

/// The prompt shows the directory, the user and the host, and goes on in a new line.
pub proof fn law_prompt_shows_where_and_who(
    dir: Seq<char>,
    home: Seq<char>,
    user: Seq<char>,
    host: Seq<char>,
)
    ensures
        prompt(dir, home, user, host) == shortened(dir, home) + seq![':', ' '] + user + seq!['@']
            + host + seq!['\n', '⟩', ' '],
{
    reveal_strlit(": ");
    reveal_strlit("@");
    reveal_strlit("\n⟩ ");
    assert(": "@ =~= seq![':', ' ']);
    assert("@"@ =~= seq!['@']);
    assert("\n⟩ "@ =~= seq!['\n', '⟩', ' ']);
}

/// The hostname comes from the file if that holds one, else from the command, and
/// else it is `localhost`.
pub proof fn law_hostname_comes_from_the_first_that_has_one(
    file: Option<Seq<char>>,
    command: Option<Seq<char>>,
)
    ensures
        file is Some && trimmed(file->0).len() > 0 ==> host_among(file, command) == trimmed(
            file->0,
        ),
        (file is None || trimmed(file->0).len() == 0) && command is Some && trimmed(
            command->0,
        ).len() > 0 ==> host_among(file, command) == trimmed(command->0),
        (file is None || trimmed(file->0).len() == 0) && (command is None || trimmed(
            command->0,
        ).len() == 0) ==> host_among(file, command) == "localhost"@,
{
}

/// A variable of the environment is read where it is set, and only there.
pub proof fn law_environment_or_default(
    env: Map<Seq<char>, Seq<char>>,
    name: Seq<char>,
    value: Seq<char>,
    other: Seq<char>,
)
    ensures
        env_or(env.insert(name, value), name, other) == value,
        env_or(env.remove(name), name, other) == other,
{
}

} // verus!
