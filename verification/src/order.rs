//! The order of strings, and sorting by it.

use vstd::prelude::*;

use crate::text::{texts, to_chars};

verus! {

/// Whether `a` comes before `b` when the two are compared character by
/// character from position `i` on. A proper prefix comes first.
pub open spec fn before_from(a: Seq<char>, b: Seq<char>, i: int) -> bool
    decreases b.len() - i,
{
    if i >= b.len() {
        false
    } else if i >= a.len() {
        true
    } else if a[i] == b[i] {
        before_from(a, b, i + 1)
    } else {
        a[i] < b[i]
    }
}

/// Whether `a` comes before `b` in the order of strings.
pub open spec fn before(a: Seq<char>, b: Seq<char>) -> bool {
    before_from(a, b, 0)
}

/// Whether no item comes before an item that stands in front of it.
pub open spec fn sorted(s: Seq<Seq<char>>) -> bool {
    forall|i: int, j: int| 0 <= i < j < s.len() ==> !before(#[trigger] s[j], #[trigger] s[i])
}

proof fn lemma_before_chain(a: Seq<char>, b: Seq<char>, c: Seq<char>, i: int)
    requires
        before_from(a, b, i),
        before_from(b, c, i),
        0 <= i,
    ensures
        before_from(a, c, i),
    decreases b.len() - i,
{
    if i < b.len() && i < a.len() && i < c.len() && a[i] == b[i] && b[i] == c[i] {
        lemma_before_chain(a, b, c, i + 1);
    }
}

proof fn lemma_before_one_way(a: Seq<char>, b: Seq<char>, i: int)
    requires
        0 <= i <= a.len(),
        i <= b.len(),
        forall|k: int| 0 <= k < i ==> a[k] == b[k],
    ensures
        !(before_from(a, b, i) && before_from(b, a, i)),
        before_from(a, b, i) || before_from(b, a, i) || a == b,
    decreases b.len() - i,
{
    if i < b.len() && i < a.len() && a[i] == b[i] {
        lemma_before_one_way(a, b, i + 1);
    } else if i == b.len() && i == a.len() {
        assert(a =~= b);
    }
}

proof fn lemma_not_before_itself(a: Seq<char>, i: int)
    ensures
        !before_from(a, a, i),
    decreases a.len() - i,
{
    if i < a.len() {
        lemma_not_before_itself(a, i + 1);
    }
}

/// The order is transitive.
pub proof fn lemma_before_transitive(a: Seq<char>, b: Seq<char>, c: Seq<char>)
    requires
        before(a, b),
        before(b, c),
    ensures
        before(a, c),
{
    lemma_before_chain(a, b, c, 0);
}

/// Of two strings, exactly one comes before the other unless they are the same.
pub proof fn lemma_before_total(a: Seq<char>, b: Seq<char>)
    ensures
        !(before(a, b) && before(b, a)),
        before(a, b) || before(b, a) || a == b,
        a == b ==> !before(a, b),
{
    lemma_before_one_way(a, b, 0);
    if a == b {
        lemma_not_before_itself(a, 0);
    }
}

/// Whether `a` comes before `b`.
pub fn comes_before(a: &str, b: &str) -> (r: bool)
    ensures
        r == before(a@, b@),
{
    let x: Vec<char> = to_chars(a);
    let y: Vec<char> = to_chars(b);
    let mut i: usize = 0;
    while i < x.len() && i < y.len() && x[i] == y[i]
        invariant
            x@ == a@,
            y@ == b@,
            i <= x@.len(),
            i <= y@.len(),
            before_from(a@, b@, i as int) == before(a@, b@),
        decreases x@.len() - i,
    {
        i = i + 1;
    }
    if i >= y.len() {
        false
    } else if i >= x.len() {
        true
    } else {
        x[i] < y[i]
    }
}

/// How many items of the sorted `items` do not come after `x`: the position
/// behind which `x` belongs.
pub fn place_of(items: &[String], x: &str) -> (p: usize)
    requires
        sorted(texts(items@)),
    ensures
        p <= items@.len(),
        forall|k: int| 0 <= k < p ==> !before(x@, #[trigger] texts(items@)[k]),
        forall|k: int| p <= k < items@.len() ==> before(x@, #[trigger] texts(items@)[k]),
{
    let ghost t = texts(items@);
    let mut lo: usize = 0;
    let mut hi: usize = items.len();
    while lo < hi
        invariant
            t == texts(items@),
            sorted(t),
            lo <= hi <= items@.len(),
            forall|k: int| 0 <= k < lo ==> !before(x@, #[trigger] t[k]),
            forall|k: int| hi <= k < t.len() ==> before(x@, #[trigger] t[k]),
        decreases hi - lo,
    {
        let mid: usize = lo + (hi - lo) / 2;
        if comes_before(x, &items[mid]) {
            assert forall|k: int| mid <= k < t.len() implies before(x@, #[trigger] t[k]) by {
                if k > mid {
                    lemma_before_total(t[mid as int], t[k]);
                    if before(t[mid as int], t[k]) {
                        lemma_before_transitive(x@, t[mid as int], t[k]);
                    }
                }
            }
            hi = mid;
        } else {
            assert forall|k: int| 0 <= k <= mid implies !before(x@, #[trigger] t[k]) by {
                if k < mid && before(x@, t[k]) {
                    lemma_before_total(t[k], t[mid as int]);
                    if before(t[k], t[mid as int]) {
                        lemma_before_transitive(x@, t[k], t[mid as int]);
                    }
                }
            }
            lo = mid + 1;
        }
    }
    lo
}

pub proof fn lemma_texts_insert(v: Seq<String>, p: int, x: String)
    requires
        0 <= p <= v.len(),
    ensures
        texts(v.insert(p, x)) == texts(v).insert(p, x@),
{
    assert(texts(v.insert(p, x)) =~= texts(v).insert(p, x@));
}

/// The items in order.
pub fn sort_texts(items: Vec<String>) -> (r: Vec<String>)
    ensures
        sorted(texts(r@)),
        texts(r@).to_multiset() == texts(items@).to_multiset(),
{
    let mut out: Vec<String> = Vec::new();
    let mut i: usize = 0;
    let ghost all = texts(items@);
    assert(texts(out@) =~= all.take(0));
    while i < items.len()
        invariant
            i <= items@.len(),
            all == texts(items@),
            sorted(texts(out@)),
            texts(out@).to_multiset() == all.take(i as int).to_multiset(),
        decreases items@.len() - i,
    {
        broadcast use vstd::seq_lib::group_to_multiset_ensures;

        let ghost t = texts(out@);
        let x: String = items[i].clone();
        let p: usize = place_of(&out, &x);
        proof {
            lemma_texts_insert(out@, p as int, x);
            let u = t.insert(p as int, x@);
            assert forall|a: int, b: int| 0 <= a < b < u.len() implies !before(
                #[trigger] u[b],
                #[trigger] u[a],
            ) by {
                if a == p {
                    assert(u[b] == t[b - 1]);
                    lemma_before_total(x@, t[b - 1]);
                } else if b == p {
                    assert(u[a] == t[a]);
                } else {
                    let a0 = if a < p {
                        a
                    } else {
                        a - 1
                    };
                    let b0 = if b < p {
                        b
                    } else {
                        b - 1
                    };
                    assert(u[a] == t[a0] && u[b] == t[b0]);
                }
            }
            assert(u =~= t.subrange(0, p as int).push(x@) + t.subrange(p as int, t.len() as int));
            assert(t =~= t.subrange(0, p as int) + t.subrange(p as int, t.len() as int));
            assert(u.to_multiset() =~= t.to_multiset().insert(x@));
            assert(all.take(i + 1) =~= all.take(i as int).push(x@));
        }
        out.insert(p, x);
        i = i + 1;
    }
    assert(all.take(i as int) =~= all);
    out
}

/// Two sorted sequences with the same items are the same.
pub proof fn lemma_sorted_is_unique(a: Seq<Seq<char>>, b: Seq<Seq<char>>)
    requires
        sorted(a),
        sorted(b),
        a.to_multiset() == b.to_multiset(),
    ensures
        a == b,
{
    let leq = |x: Seq<char>, y: Seq<char>| !before(y, x);
    assert forall|x: Seq<char>| #[trigger] leq(x, x) by {
        lemma_before_total(x, x);
    }
    assert forall|x: Seq<char>, y: Seq<char>| #[trigger] leq(x, y) && #[trigger] leq(y, x) implies x
        == y by {
        lemma_before_total(x, y);
    }
    assert forall|x: Seq<char>, y: Seq<char>, z: Seq<char>| #[trigger]
        leq(x, y) && #[trigger] leq(y, z) implies leq(x, z) by {
        lemma_before_total(x, y);
        lemma_before_total(y, z);
        if before(z, x) {
            if before(x, y) {
                lemma_before_transitive(z, x, y);
            }
        }
    }
    assert forall|x: Seq<char>, y: Seq<char>| #[trigger] leq(x, y) || #[trigger] leq(y, x) by {
        lemma_before_total(x, y);
    }
    vstd::seq_lib::lemma_sorted_unique(a, b, leq);
}

/// One string comes before another if it is a proper beginning of it, or if its
/// character is the lesser one where the two first differ; and only then.
pub proof fn law_strings_are_ordered_by_first_difference(a: Seq<char>, b: Seq<char>)
    ensures
        before(a, b) <==> exists|k: int|
            0 <= k <= a.len() && k < b.len() && #[trigger] a.take(k) == b.take(k) && (k == a.len()
                || a[k] < b[k]),
{
    lemma_first_difference(a, b, 0);
    if before(a, b) {
        let k = choose|k: int| #[trigger] differs_at(a, b, k);
        assert(a.take(k) =~= b.take(k));
    }
    if exists|k: int|
        0 <= k <= a.len() && k < b.len() && #[trigger] a.take(k) == b.take(k) && (k == a.len()
            || a[k] < b[k]) {
        let k = choose|k: int|
            0 <= k <= a.len() && k < b.len() && #[trigger] a.take(k) == b.take(k) && (k == a.len()
                || a[k] < b[k]);
        assert forall|j: int| 0 <= j < k implies a[j] == b[j] by {
            assert(a.take(k)[j] == b.take(k)[j]);
        }
        assert(differs_at(a, b, k));
    }
}

/// Whether `a` and `b` first differ at `k`, and `a` has the lesser character there
/// or none.
spec fn differs_at(a: Seq<char>, b: Seq<char>, k: int) -> bool {
    &&& 0 <= k <= a.len()
    &&& k < b.len()
    &&& forall|j: int| 0 <= j < k ==> a[j] == b[j]
    &&& k == a.len() || a[k] < b[k]
}

proof fn lemma_first_difference(a: Seq<char>, b: Seq<char>, i: int)
    requires
        0 <= i <= a.len(),
        i <= b.len(),
        forall|j: int| 0 <= j < i ==> a[j] == b[j],
    ensures
        before_from(a, b, i) <==> exists|k: int| #[trigger] differs_at(a, b, k),
    decreases b.len() - i,
{
    if i < a.len() && i < b.len() && a[i] == b[i] {
        lemma_first_difference(a, b, i + 1);
    } else if before_from(a, b, i) {
        assert(differs_at(a, b, i));
    } else if exists|k: int| #[trigger] differs_at(a, b, k) {
        let k = choose|k: int| #[trigger] differs_at(a, b, k);
        assert(k >= i);
        if k > i {
            assert(a[i] == b[i]);
        }
    }
}

} // verus!
