//! The walk through a command chain.
//!
//! A [`Walk`] hands out one leaf of the tree after the other, a simple command or
//! a pipeline, and takes its status back. It honours `&&`, `||` and `;`, and
//! stops at a status that asks to leave.

use vstd::prelude::*;

use crate::ast::{Node, Tree};
use crate::exit::{leaves, EXIT_SENTINEL};
use crate::parser::{parse, parsed};

verus! {

// ---------------------------------------------------------------------
// What a chain runs
// ---------------------------------------------------------------------

/// Whether the tree is a single thing to run.
pub open spec fn is_leaf(tree: Tree) -> bool {
    tree is Command || tree is Pipeline
}

/// What a walk came to: the leaves that ran, in order, and the final status.
#[verifier::ext_equal]
pub struct Course {
    pub ran: Seq<Tree>,
    pub status: i32,
}

/// The course of a tree, when the leaf that is the `k`-th to run ends with
/// status `ends(k)`, and `n` leaves have run before.
pub open spec fn course(tree: Tree, ends: spec_fn(int) -> i32, n: int) -> Course
    decreases tree,
{
    match tree {
        Tree::And(l, r) => {
            let first = course(*l, ends, n);
            if first.status == 0 {
                joined_course(first, course(*r, ends, n + first.ran.len()))
            } else {
                first
            }
        },
        Tree::Or(l, r) => {
            let first = course(*l, ends, n);
            if first.status != 0 && !leaves(first.status) {
                joined_course(first, course(*r, ends, n + first.ran.len()))
            } else {
                first
            }
        },
        Tree::Sequence(l, r) => {
            let first = course(*l, ends, n);
            if !leaves(first.status) {
                joined_course(first, course(*r, ends, n + first.ran.len()))
            } else {
                first
            }
        },
        _ => Course { ran: seq![tree], status: ends(n) },
    }
}

/// One course, and then another.
pub open spec fn joined_course(a: Course, b: Course) -> Course {
    Course { ran: a.ran + b.ran, status: b.status }
}

// ---------------------------------------------------------------------
// The walk
// ---------------------------------------------------------------------

/// When the right-hand side of an operator runs.
#[derive(Debug, Clone, Copy, PartialEq, Eq, Structural)]
pub enum Link {
    /// `&&`: after a status of 0.
    IfOk,
    /// `||`: after any other status.
    IfFailed,
    /// `;`: after any status.
    Always,
}

impl Link {
    /// Whether a status lets the right-hand side run.
    pub open spec fn lets(self, status: i32) -> bool {
        !leaves(status) && match self {
            Link::IfOk => status == 0,
            Link::IfFailed => status != 0,
            Link::Always => true,
        }
    }

    fn allows(self, status: i32) -> (r: bool)
        ensures
            r == self.lets(status),
    {
        status < EXIT_SENTINEL && match self {
            Link::IfOk => status == 0,
            Link::IfFailed => status != 0,
            Link::Always => true,
        }
    }
}

/// The right-hand sides that wait for a status, the innermost last.
pub open spec fn waiting_view(v: Seq<(Link, Node)>) -> Seq<(Link, Tree)> {
    v.map_values(|e: (Link, Node)| (e.0, e.1@))
}

/// The course of what waits, once the left-hand side of the innermost has come
/// to `first`.
pub open spec fn rest_of_course(
    waiting: Seq<(Link, Tree)>,
    first: Course,
    ends: spec_fn(int) -> i32,
    n: int,
) -> Course
    decreases waiting.len(),
{
    if waiting.len() == 0 {
        first
    } else {
        let (link, tree) = waiting.last();
        let so_far = if link.lets(first.status) {
            joined_course(first, course(tree, ends, n + first.ran.len()))
        } else {
            first
        };
        rest_of_course(waiting.drop_last(), so_far, ends, n)
    }
}

/// A walk through a tree.
#[derive(Debug)]
pub struct Walk {
    waiting: Vec<(Link, Node)>,
}

/// What comes next on a walk.
#[derive(Debug)]
pub enum Next {
    /// Run this command or pipeline, and report its status.
    Run(Node),
    /// The walk is over, with this status.
    Done(i32),
}

impl Walk {
    /// The right-hand sides that still wait for a status.
    pub closed spec fn waiting(&self) -> Seq<(Link, Tree)> {
        waiting_view(self.waiting@)
    }

    /// The first leaf of `node`; what stands to its right waits.
    fn descend(&mut self, node: Node) -> (leaf: Node)
        ensures
            is_leaf(leaf@),
            forall|ends: spec_fn(int) -> i32, n: int| #[trigger]
                rest_of_course(
                    final(self).waiting(),
                    Course { ran: seq![leaf@], status: ends(n) },
                    ends,
                    n,
                ) == rest_of_course(old(self).waiting(), course(node@, ends, n), ends, n),
        decreases node,
    {
        let ghost before = self.waiting();
        let ghost whole = node@;
        match node {
            Node::And(l, r) => {
                let ghost right = r@;
                self.waiting.push((Link::IfOk, *r));
                proof {
                    assert(self.waiting() =~= before.push((Link::IfOk, right)));
                    lemma_wait(before, self.waiting(), Link::IfOk, right, l@, whole);
                }
                self.descend(*l)
            },
            Node::Or(l, r) => {
                let ghost right = r@;
                self.waiting.push((Link::IfFailed, *r));
                proof {
                    assert(self.waiting() =~= before.push((Link::IfFailed, right)));
                    lemma_wait(before, self.waiting(), Link::IfFailed, right, l@, whole);
                }
                self.descend(*l)
            },
            Node::Sequence(l, r) => {
                let ghost right = r@;
                self.waiting.push((Link::Always, *r));
                proof {
                    assert(self.waiting() =~= before.push((Link::Always, right)));
                    lemma_wait(before, self.waiting(), Link::Always, right, l@, whole);
                }
                self.descend(*l)
            },
            leaf => leaf,
        }
    }

    /// Starts a walk: the first leaf to run, and what is left for later.
    pub fn start(node: Node) -> (r: (Walk, Node))
        ensures
            is_leaf(r.1@),
            forall|ends: spec_fn(int) -> i32, n: int| #[trigger]
                rest_of_course(
                    r.0.waiting(),
                    Course { ran: seq![r.1@], status: ends(n) },
                    ends,
                    n,
                ) == course(node@, ends, n),
    {
        let mut walk = Walk { waiting: Vec::new() };
        let leaf: Node = walk.descend(node);
        (walk, leaf)
    }

    /// Goes on after a leaf has ended with `status`. What is left of the course
    /// starts with the leaf that is handed out; it is over if none is.
    pub fn advance(&mut self, status: i32) -> (r: Next)
        ensures
            match r {
                Next::Run(leaf) => {
                    &&& is_leaf(leaf@)
                    &&& !leaves(status)
                    &&& forall|ran: Seq<Tree>, ends: spec_fn(int) -> i32, n: int| #[trigger]
                        rest_of_course(old(self).waiting(), Course { ran, status }, ends, n)
                            == rest_of_course(
                            final(self).waiting(),
                            Course { ran: ran.push(leaf@), status: ends(n + ran.len()) },
                            ends,
                            n,
                        )
                },
                Next::Done(s) => {
                    &&& s == status
                    &&& forall|ran: Seq<Tree>, ends: spec_fn(int) -> i32, n: int| #[trigger]
                        rest_of_course(old(self).waiting(), Course { ran, status }, ends, n)
                            == (Course { ran, status })
                },
            },
    {
        loop
            invariant
                forall|ran: Seq<Tree>, ends: spec_fn(int) -> i32, n: int| #[trigger]
                    rest_of_course(old(self).waiting(), Course { ran, status }, ends, n)
                        == rest_of_course(self.waiting(), Course { ran, status }, ends, n),
            decreases self.waiting().len(),
        {
            let ghost before = self.waiting();
            match self.waiting.pop() {
                None => {
                    return Next::Done(status);
                },
                Some((link, node)) => {
                    assert(before.last() == (link, node@));
                    assert(self.waiting() =~= before.drop_last());
                    if link.allows(status) {
                        let ghost mid = self.waiting();
                        let ghost tree = node@;
                        let leaf: Node = self.descend(node);
                        assert forall|ran: Seq<Tree>, ends: spec_fn(int) -> i32, n: int| #[trigger]
                            rest_of_course(old(self).waiting(), Course { ran, status }, ends, n)
                                == rest_of_course(
                                self.waiting(),
                                Course { ran: ran.push(leaf@), status: ends(n + ran.len()) },
                                ends,
                                n,
                            ) by {
                            let m = n + ran.len();
                            lemma_shift(mid, ran, course(tree, ends, m), ends, n);
                            lemma_shift(
                                self.waiting(),
                                ran,
                                Course { ran: seq![leaf@], status: ends(m) },
                                ends,
                                n,
                            );
                            assert(ran + seq![leaf@] =~= ran.push(leaf@));
                        }
                        return Next::Run(leaf);
                    }
                },
            }
        }
    }
}

/// Leaves that ran before do not change what comes after, but for how they are
/// counted.
proof fn lemma_shift(
    waiting: Seq<(Link, Tree)>,
    ran: Seq<Tree>,
    first: Course,
    ends: spec_fn(int) -> i32,
    n: int,
)
    ensures
        rest_of_course(
            waiting,
            Course { ran: ran + first.ran, status: first.status },
            ends,
            n,
        ) == ({
            let c = rest_of_course(waiting, first, ends, n + ran.len());
            Course { ran: ran + c.ran, status: c.status }
        }),
    decreases waiting.len(),
{
    if waiting.len() > 0 {
        let (link, tree) = waiting.last();
        let m = n + ran.len();
        let whole = Course { ran: ran + first.ran, status: first.status };
        if link.lets(first.status) {
            let next = course(tree, ends, m + first.ran.len());
            assert(n + whole.ran.len() == m + first.ran.len());
            let a = joined_course(first, next);
            assert(joined_course(whole, next) =~= Course { ran: ran + a.ran, status: a.status });
            lemma_shift(waiting.drop_last(), ran, a, ends, n);
        } else {
            lemma_shift(waiting.drop_last(), ran, first, ends, n);
        }
    }
}

/// To wait for the left-hand side of an operator is to walk the operator.
proof fn lemma_wait(
    before: Seq<(Link, Tree)>,
    after: Seq<(Link, Tree)>,
    link: Link,
    right: Tree,
    left: Tree,
    whole: Tree,
)
    requires
        after == before.push((link, right)),
        whole == (match link {
            Link::IfOk => Tree::And(Box::new(left), Box::new(right)),
            Link::IfFailed => Tree::Or(Box::new(left), Box::new(right)),
            Link::Always => Tree::Sequence(Box::new(left), Box::new(right)),
        }),
    ensures
        forall|ends: spec_fn(int) -> i32, n: int| #[trigger]
            rest_of_course(after, course(left, ends, n), ends, n) == rest_of_course(
                before,
                course(whole, ends, n),
                ends,
                n,
            ),
{
    assert(after.last() == (link, right));
    assert(after.drop_last() =~= before);
    assert forall|ends: spec_fn(int) -> i32, n: int| #[trigger]
        rest_of_course(after, course(left, ends, n), ends, n) == rest_of_course(
            before,
            course(whole, ends, n),
            ends,
            n,
        ) by {
        let first = course(left, ends, n);
        assert(course(whole, ends, n) == if link.lets(first.status) {
            joined_course(first, course(right, ends, n + first.ran.len()))
        } else {
            first
        });
    }
}

// ---------------------------------------------------------------------
// A line of input
// ---------------------------------------------------------------------

/// What a line of input asks for.
#[derive(Debug)]
pub enum Chain {
    /// Walk this tree.
    Run(Node),
    /// Nothing.
    Nothing,
    /// The line does not parse; this is to be said on the error stream.
    Reject(String),
}

/// Reads a line of input.
pub fn execute_chain(input: &str) -> (r: Chain)
    ensures
        match parsed(input@) {
            Ok(Some(tree)) => r is Run && r->Run_0@ == tree,
            Ok(None) => r is Nothing,
            Err(e) => r is Reject && r->Reject_0@ == "lush: "@ + e,
        },
{
    match parse(input) {
        Ok(Some(node)) => Chain::Run(node),
        Ok(None) => Chain::Nothing,
        Err(e) => {
            let mut message: String = "lush: ".to_owned();
            message.append(&e);
            Chain::Reject(message)
        },
    }
}

// ---------------------------------------------------------------------
// Laws
// ---------------------------------------------------------------------

/// At least one leaf runs, and the status of a chain is that of the last leaf
/// that ran.
pub proof fn law_last_leaf_decides(tree: Tree, ends: spec_fn(int) -> i32, n: int)
    ensures
        course(tree, ends, n).ran.len() > 0,
        course(tree, ends, n).status == ends(n + course(tree, ends, n).ran.len() - 1),
    decreases tree,
{
    match tree {
        Tree::And(l, r) => {
            law_last_leaf_decides(*l, ends, n);
            law_last_leaf_decides(*r, ends, n + course(*l, ends, n).ran.len());
        },
        Tree::Or(l, r) => {
            law_last_leaf_decides(*l, ends, n);
            law_last_leaf_decides(*r, ends, n + course(*l, ends, n).ran.len());
        },
        Tree::Sequence(l, r) => {
            law_last_leaf_decides(*l, ends, n);
            law_last_leaf_decides(*r, ends, n + course(*l, ends, n).ran.len());
        },
        _ => {},
    }
}

/// Once a leaf asks to leave, nothing else runs.
pub proof fn law_nothing_runs_after_exit(tree: Tree, ends: spec_fn(int) -> i32, n: int, k: int)
    requires
        0 <= k < course(tree, ends, n).ran.len(),
        leaves(ends(n + k)),
    ensures
        k == course(tree, ends, n).ran.len() - 1,
        course(tree, ends, n).status == ends(n + k),
    decreases tree,
{
    law_last_leaf_decides(tree, ends, n);
    match tree {
        Tree::And(l, r) => {
            let m = course(*l, ends, n).ran.len();
            law_last_leaf_decides(*l, ends, n);
            if k < m {
                law_nothing_runs_after_exit(*l, ends, n, k);
            } else {
                law_nothing_runs_after_exit(*r, ends, n + m, k - m);
            }
        },
        Tree::Or(l, r) => {
            let m = course(*l, ends, n).ran.len();
            law_last_leaf_decides(*l, ends, n);
            if k < m {
                law_nothing_runs_after_exit(*l, ends, n, k);
            } else {
                law_nothing_runs_after_exit(*r, ends, n + m, k - m);
            }
        },
        Tree::Sequence(l, r) => {
            let m = course(*l, ends, n).ran.len();
            law_last_leaf_decides(*l, ends, n);
            if k < m {
                law_nothing_runs_after_exit(*l, ends, n, k);
            } else {
                law_nothing_runs_after_exit(*r, ends, n + m, k - m);
            }
        },
        _ => {},
    }
}

/// `a && b` runs `b` exactly when `a` ends with 0, and `a || b` runs it exactly
/// when `a` ends with another status that does not leave.
pub proof fn law_operators_short_circuit(
    a: Tree,
    b: Tree,
    ends: spec_fn(int) -> i32,
    n: int,
)
    ensures
        ({
            let first = course(a, ends, n);
            let second = course(b, ends, n + first.ran.len());
            let both = joined_course(first, second);
            &&& course(Tree::And(Box::new(a), Box::new(b)), ends, n) == if first.status == 0 {
                both
            } else {
                first
            }
            &&& course(Tree::Or(Box::new(a), Box::new(b)), ends, n) == if first.status == 0
                || leaves(first.status) {
                first
            } else {
                both
            }
            &&& course(Tree::Sequence(Box::new(a), Box::new(b)), ends, n) == if leaves(
                first.status,
            ) {
                first
            } else {
                both
            }
        }),
{
}

/// Every leaf of a tree, in the order in which they would run.
pub open spec fn leaves_of(tree: Tree) -> Seq<Tree>
    decreases tree,
{
    match tree {
        Tree::And(l, r) => leaves_of(*l) + leaves_of(*r),
        Tree::Or(l, r) => leaves_of(*l) + leaves_of(*r),
        Tree::Sequence(l, r) => leaves_of(*l) + leaves_of(*r),
        _ => seq![tree],
    }
}

/// `a ; b ; ...` runs every leaf in order as long as none asks to leave.
pub proof fn law_sequence_runs_all(tree: Tree, ends: spec_fn(int) -> i32, n: int)
    requires
        only_sequences(tree),
        forall|k: int| !leaves(#[trigger] ends(k)),
    ensures
        course(tree, ends, n).ran == leaves_of(tree),
    decreases tree,
{
    if let Tree::Sequence(l, r) = tree {
        law_sequence_runs_all(*l, ends, n);
        law_last_leaf_decides(*l, ends, n);
        law_sequence_runs_all(*r, ends, n + course(*l, ends, n).ran.len());
    }
}

/// Whether `;` is the only operator of the tree.
pub open spec fn only_sequences(tree: Tree) -> bool
    decreases tree,
{
    match tree {
        Tree::And(_, _) => false,
        Tree::Or(_, _) => false,
        Tree::Sequence(l, r) => only_sequences(*l) && only_sequences(*r),
        _ => true,
    }
}

/// A command or a pipeline runs by itself, once, and its status is that of the chain.
pub proof fn law_leaf_runs_once(tree: Tree, ends: spec_fn(int) -> i32, n: int)
    requires
        tree is Command || tree is Pipeline,
    ensures
        course(tree, ends, n).ran == seq![tree],
        course(tree, ends, n).status == ends(n),
{
}

/// `a && b`, `a || b` and `a ; b` run all of `a` first, and then, if at all, all of
/// `b`; the status is that of what ran last.
pub proof fn law_right_side_runs_behind_the_left(
    a: Tree,
    b: Tree,
    ends: spec_fn(int) -> i32,
    n: int,
)
    ensures
        ({
            let first = course(a, ends, n);
            let second = course(b, ends, n + first.ran.len());
            let ok = course(Tree::And(Box::new(a), Box::new(b)), ends, n);
            let failed = course(Tree::Or(Box::new(a), Box::new(b)), ends, n);
            let always = course(Tree::Sequence(Box::new(a), Box::new(b)), ends, n);
            &&& first.status == 0 ==> ok.ran == first.ran + second.ran && ok.status
                == second.status
            &&& first.status != 0 ==> ok.ran == first.ran && ok.status == first.status
            &&& first.status != 0 && first.status < 256 ==> failed.ran == first.ran + second.ran && failed.status
                == second.status
            &&& first.status == 0 || first.status >= 256 ==> failed.ran == first.ran
                && failed.status == first.status
            &&& first.status < 256 ==> always.ran == first.ran + second.ran && always.status
                == second.status
            &&& first.status >= 256 ==> always.ran == first.ran && always.status == first.status
        }),
{
}

} // verus!
