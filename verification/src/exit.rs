//! Statuses, and the request to leave the shell.
//!
//! A request to leave travels as a status of its own, so that the executor
//! unwinds to its caller and the session ends in an orderly way.

use vstd::prelude::*;

use crate::text::{texts, to_chars};

verus! {

/// The least status that asks to leave. Real statuses are at most 255; the exit
/// code rides along as `EXIT_SENTINEL + code`.
pub const EXIT_SENTINEL: i32 = 256;

/// Whether a status asks to leave.
pub open spec fn leaves(status: i32) -> bool {
    status >= EXIT_SENTINEL
}

/// The exit code that a status asks to leave with, if it does.
pub fn exit_code(status: i32) -> (r: Option<i32>)
    ensures
        r == (if leaves(status) {
            Some((status - EXIT_SENTINEL) as i32)
        } else {
            None
        }),
{
    if status >= EXIT_SENTINEL {
        Some(status - EXIT_SENTINEL)
    } else {
        None
    }
}

/// Whether all characters are decimal digits.
pub open spec fn all_digits(s: Seq<char>) -> bool {
    forall|k: int| 0 <= k < s.len() ==> '0' <= #[trigger] s[k] <= '9'
}

/// The number that decimal digits write.
pub open spec fn decimal(s: Seq<char>) -> nat
    decreases s.len(),
{
    if s.len() == 0 {
        0
    } else {
        10 * decimal(s.drop_last()) + (s.last() as nat - '0' as nat) as nat
    }
}

/// `s` without a leading `+`.
pub open spec fn unsigned(s: Seq<char>) -> Seq<char> {
    if s.len() > 0 && s[0] == '+' {
        s.skip(1)
    } else {
        s
    }
}

/// The byte that `s` writes in decimal, if it writes one: digits, perhaps behind
/// a `+`, whose number is at most 255.
pub open spec fn byte_written(s: Seq<char>) -> Option<u8> {
    let d = unsigned(s);
    if d.len() > 0 && all_digits(d) && decimal(d) <= 255 {
        Some(decimal(d) as u8)
    } else {
        None
    }
}

proof fn lemma_decimal_grows(s: Seq<char>, i: int)
    requires
        0 <= i <= s.len(),
        all_digits(s.take(i)),
    ensures
        decimal(s) >= decimal(s.take(i)),
    decreases s.len(),
{
    if i < s.len() {
        let less = s.drop_last();
        assert(less.take(i) =~= s.take(i));
        lemma_decimal_grows(less, i);
    } else {
        assert(s.take(i) =~= s);
    }
}

/// Reads a byte in decimal.
pub fn parse_byte(s: &str) -> (r: Option<u8>)
    ensures
        r == byte_written(s@),
{
    let chars: Vec<char> = to_chars(s);
    let n: usize = chars.len();
    let from: usize = if n > 0 && chars[0] == '+' {
        1
    } else {
        0
    };
    let ghost d = unsigned(s@);
    assert(d =~= chars@.skip(from as int));
    if from == n {
        return None;
    }
    let mut value: u32 = 0;
    let mut i: usize = from;
    assert(d.take(0) =~= Seq::empty());
    while i < n
        invariant
            from <= i <= n == chars@.len(),
            d == unsigned(s@),
            d == chars@.skip(from as int),
            d.len() > 0,
            all_digits(d.take(i - from)),
            value == decimal(d.take(i - from)),
            value <= 255,
        decreases n - i,
    {
        let c: char = chars[i];
        assert(d[i - from] == c);
        if !('0' <= c && c <= '9') {
            return None;
        }
        let ghost more = d.take(i + 1 - from);
        value = 10 * value + (c as u32 - '0' as u32);
        proof {
            assert(more.drop_last() =~= d.take(i - from));
            assert(more.last() == c);
            assert forall|k: int| 0 <= k < more.len() implies '0' <= #[trigger] more[k] <= '9' by {
                if k < i - from {
                    assert(more[k] == d.take(i - from)[k]);
                }
            }
            assert(value == decimal(more));
        }
        if value > 255 {
            proof {
                lemma_decimal_grows(d, i + 1 - from);
            }
            return None;
        }
        i = i + 1;
    }
    assert(d.take(i - from) =~= d);
    Some(value as u8)
}

/// The status of `exit` with the given arguments: leave with 0, with the byte
/// that the first argument writes, or, if it writes none, with 2.
pub open spec fn exit_status(args: Seq<Seq<char>>) -> i32 {
    if args.len() == 0 {
        EXIT_SENTINEL
    } else {
        match byte_written(args[0]) {
            Some(code) => (EXIT_SENTINEL + code) as i32,
            None => (EXIT_SENTINEL + 2) as i32,
        }
    }
}

/// What `exit` says about an argument that is no number.
pub open spec fn exit_message(args: Seq<Seq<char>>) -> Seq<char> {
    if args.len() > 0 && byte_written(args[0]) is None {
        "lush: exit: "@ + args[0] + ": numeric argument required"@
    } else {
        Seq::empty()
    }
}

/// The `exit` builtin: its status, and what it says on the error stream.
pub fn exit_requested(args: &[String]) -> (r: (i32, String))
    ensures
        r.0 == exit_status(texts(args@)),
        r.1@ == exit_message(texts(args@)),
{
    if args.len() == 0 {
        return (EXIT_SENTINEL, String::new());
    }
    match parse_byte(&args[0]) {
        Some(code) => (EXIT_SENTINEL + code as i32, String::new()),
        None => {
            let mut message: String = "lush: exit: ".to_owned();
            message.append(&args[0]);
            message.append(": numeric argument required");
            (EXIT_SENTINEL + 2, message)
        },
    }
}

/// The status of a program that ended with `code`; one that was killed, or could
/// not be waited for, counts as 1.
pub open spec fn code_or_one(code: Option<i32>) -> i32 {
    match code {
        Some(code) => code,
        None => 1,
    }
}

/// The status of a program that has ended.
pub fn child_status(code: Option<i32>) -> (r: i32)
    ensures
        r == code_or_one(code),
{
    match code {
        Some(code) => code,
        None => 1,
    }
}

/// The status of a command one of whose redirections could not be opened.
pub const NOT_OPENED: i32 = 1;

/// The status of a command that could not be started.
pub const NOT_STARTED: i32 = 127;

/// What is said when the system refuses something: `lush: {what}: {error}`.
pub fn complaint(what: &str, error: &str) -> (r: String)
    ensures
        r@ == "lush: "@ + what@ + ": "@ + error@,
{
    let mut message: String = "lush: ".to_owned();
    message.append(what);
    message.append(": ");
    message.append(error);
    message
}

/// `exit` always leaves, and with an exit code between 0 and 255.
pub proof fn law_exit_leaves(args: Seq<Seq<char>>)
    ensures
        leaves(exit_status(args)),
        0 <= exit_status(args) - EXIT_SENTINEL <= 255,
        args.len() == 0 ==> exit_status(args) == EXIT_SENTINEL,
{
}

/// A status asks to leave exactly from 256 on.
pub proof fn law_leaving_starts_at_256(status: i32)
    ensures
        leaves(status) <==> status >= 256,
{
}

/// A byte is read digit by digit: each further digit makes ten times as much and
/// adds its own value, and more than 255 is no byte.
pub proof fn law_bytes_are_read_digit_by_digit(s: Seq<char>, d: char)
    requires
        '0' <= d <= '9',
        forall|k: int| 0 <= k < s.len() ==> '0' <= #[trigger] s[k] <= '9',
    ensures
        byte_written(seq![d]) == Some((d as int - '0' as int) as u8),
        s.len() > 0 ==> byte_written(s.push(d)) == (match byte_written(s) {
            Some(b) => if 10 * b + (d as int - '0' as int) <= 255 {
                Some((10 * b + (d as int - '0' as int)) as u8)
            } else {
                None
            },
            None => None,
        }),
        s.len() > 0 ==> byte_written(seq!['+'] + s) == byte_written(s),
{
    let one = seq![d];
    assert(one.drop_last() =~= Seq::empty());
    assert(decimal(one.drop_last()) == 0);
    assert(decimal(one) == (d as nat - '0' as nat) as nat);
    if s.len() > 0 {
        let more = s.push(d);
        assert(more.drop_last() =~= s);
        assert(more[0] == s[0]);
        assert(s[0] != '+');
        assert forall|k: int| 0 <= k < more.len() implies '0' <= #[trigger] more[k] <= '9' by {
            if k < s.len() {
                assert(more[k] == s[k]);
            }
        }
        assert(all_digits(more));
        assert(all_digits(s));
        assert(decimal(more) == 10 * decimal(s) + (d as nat - '0' as nat) as nat);
        let signed = seq!['+'] + s;
        assert(signed[0] == '+');
        assert(signed.skip(1) =~= s);
    }
}

/// A text that is empty, or holds anything but digits behind a first `+`, writes no
/// byte.
pub proof fn law_other_texts_are_no_bytes(s: Seq<char>, k: int)
    ensures
        byte_written(Seq::empty()) is None,
        byte_written(seq!['+']) is None,
        0 <= k < s.len() && !('0' <= s[k] <= '9') && (k > 0 || s[k] != '+') ==> byte_written(
            s,
        ) is None,
{
    assert(seq!['+'].skip(1) =~= Seq::<char>::empty());
    if 0 <= k < s.len() && !('0' <= s[k] <= '9') && (k > 0 || s[k] != '+') {
        let d = unsigned(s);
        if s[0] == '+' {
            assert(d[k - 1] == s[k]);
        } else {
            assert(d[k] == s[k]);
        }
    }
}

/// `exit` leaves with the byte that its first argument writes, and says nothing; with
/// any other argument it leaves with 2, and says which argument it was. Further
/// arguments do not matter.
pub proof fn law_exit_code_is_the_first_argument(args: Seq<Seq<char>>)
    requires
        args.len() > 0,
    ensures
        byte_written(args[0]) matches Some(code) ==> exit_status(args) == 256 + code
            && exit_message(args) == Seq::<char>::empty(),
        byte_written(args[0]) is None ==> exit_status(args) == 258 && exit_message(args)
            == "lush: exit: "@ + args[0] + ": numeric argument required"@,
        exit_message(Seq::empty()) == Seq::<char>::empty(),
        exit_status(Seq::empty()) == 256,
{
}

/// A redirection that cannot be opened counts as 1, and a command that cannot be
/// started as 127.
pub proof fn law_statuses_of_what_does_not_run()
    ensures
        NOT_OPENED == 1,
        NOT_STARTED == 127,
        !leaves(NOT_OPENED),
        !leaves(NOT_STARTED),
{
}

} // verus!
