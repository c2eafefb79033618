//! Vectors of strings kept in strictly ascending order, so that a set of
//! texts is held in exactly one way.

use vstd::prelude::*;
use crate::text::{compare, text_lt, text_lt_asymmetric, text_lt_transitive, Order};

verus! {

/// Each text precedes all that follow it: the texts ascend and none occurs
/// twice.
pub open spec fn strictly_sorted(s: Seq<Seq<char>>) -> bool {
    forall|i: int, j: int| 0 <= i < j < s.len() ==> text_lt(s[i], s[j])
}

/// Where `key` stands in `s`, or where it would have to be put.
///
/// All texts before `at` precede `key`, all texts after it follow `key`, and
/// the text at `at` is `key` if `found`, and follows `key` otherwise.
pub open spec fn located(s: Seq<Seq<char>>, key: Seq<char>, at: int, found: bool) -> bool {
    &&& 0 <= at <= s.len()
    &&& forall|i: int| 0 <= i < at ==> text_lt(#[trigger] s[i], key)
    &&& found ==> at < s.len() && s[at] == key
    &&& forall|i: int| at <= i < s.len() && !(found && i == at) ==> text_lt(key, #[trigger] s[i])
}

/// A text stands in a sorted sequence only where it is located.
pub proof fn located_decides_membership(s: Seq<Seq<char>>, key: Seq<char>, at: int, found: bool)
    requires
        located(s, key, at, found),
    ensures
        found <==> s.contains(key),
        forall|i: int| 0 <= i < s.len() && s[i] == key ==> i == at,
{
    assert forall|i: int| 0 <= i < s.len() && s[i] == key implies found && i == at by {
        if i < at {
            text_lt_asymmetric(s[i], key);
        } else if !(found && i == at) {
            text_lt_asymmetric(key, s[i]);
        }
    }
    if found {
        assert(s[at] == key);
    }
}

/// Two strictly sorted sequences that hold the same texts are equal.
pub proof fn sorted_by_content(a: Seq<Seq<char>>, b: Seq<Seq<char>>)
    requires
        strictly_sorted(a),
        strictly_sorted(b),
        a.to_set() == b.to_set(),
    ensures
        a == b,
    decreases a.len(),
{
    if a.len() == 0 {
        if b.len() > 0 {
            assert(b.to_set().contains(b[0]));
            assert(a.contains(b[0]));
        }
        assert(a =~= b);
    } else if b.len() == 0 {
        assert(a.to_set().contains(a[0]));
        assert(b.contains(a[0]));
    } else {
        // The last text of each is the greatest of the common content.
        let x = a.last();
        let y = b.last();
        assert(a.to_set().contains(x));
        assert(b.contains(x));
        assert(b.to_set().contains(y));
        assert(a.contains(y));
        let i = choose|i: int| 0 <= i < b.len() && b[i] == x;
        let j = choose|j: int| 0 <= j < a.len() && a[j] == y;
        if i < b.len() - 1 && j < a.len() - 1 {
            text_lt_transitive(x, y, x);
            text_lt_asymmetric(x, x);
        }
        if i < b.len() - 1 {
            assert(text_lt(x, y));
            if j < a.len() - 1 {
            } else {
                text_lt_asymmetric(x, y);
            }
        }
        if j < a.len() - 1 {
            assert(text_lt(y, x));
            text_lt_asymmetric(y, x);
        }
        assert(x == y);
        let a0 = a.drop_last();
        let b0 = b.drop_last();
        assert forall|t: Seq<char>| a0.to_set().contains(t) <==> b0.to_set().contains(t) by {
            if a0.contains(t) {
                let n = choose|n: int| 0 <= n < a0.len() && a0[n] == t;
                assert(a[n] == t);
                text_lt_asymmetric(t, x);
                assert(a.to_set().contains(t));
                assert(b.contains(t));
                let m = choose|m: int| 0 <= m < b.len() && b[m] == t;
                assert(b0[m] == t);
            }
            if b0.contains(t) {
                let n = choose|n: int| 0 <= n < b0.len() && b0[n] == t;
                assert(b[n] == t);
                text_lt_asymmetric(t, y);
                assert(b.to_set().contains(t));
                assert(a.contains(t));
                let m = choose|m: int| 0 <= m < a.len() && a[m] == t;
                assert(a0[m] == t);
            }
        }
        assert(a0.to_set() =~= b0.to_set());
        sorted_by_content(a0, b0);
        assert(a =~= a0.push(x));
        assert(b =~= b0.push(y));
    }
}

/// Finds `key` in a sorted vector by bisection.
pub(crate) fn search(v: &Vec<String>, key: &str) -> (r: (usize, bool))
    requires
        strictly_sorted(v.deep_view()),
    ensures
        located(v.deep_view(), key@, r.0 as int, r.1),
{
    let ghost s = v.deep_view();
    let mut lo: usize = 0;
    let mut hi: usize = v.len();
    while lo < hi
        invariant
            0 <= lo <= hi <= v.len(),
            s == v.deep_view(),
            strictly_sorted(s),
            forall|i: int| 0 <= i < lo ==> text_lt(#[trigger] s[i], key@),
            forall|i: int| hi <= i < s.len() ==> text_lt(key@, #[trigger] s[i]),
        decreases hi - lo,
    {
        let mid: usize = lo + (hi - lo) / 2;
        assert(s[mid as int] == v@[mid as int]@);
        match compare(v[mid].as_str(), key) {
            Order::Less => {
                assert forall|i: int| 0 <= i < mid + 1 implies text_lt(#[trigger] s[i], key@) by {
                    if i < mid {
                        text_lt_transitive(s[i], s[mid as int], key@);
                    }
                }
                lo = mid + 1;
            },
            Order::Greater => {
                assert forall|i: int| mid <= i < s.len() implies text_lt(key@, #[trigger] s[i]) by {
                    if mid < i {
                        text_lt_transitive(key@, s[mid as int], s[i]);
                    }
                }
                hi = mid;
            },
            Order::Equal => {
                assert forall|i: int| 0 <= i < mid implies text_lt(#[trigger] s[i], key@) by {}
                assert forall|i: int| mid < i < s.len() implies text_lt(key@, #[trigger] s[i]) by {}
                return (mid, true);
            },
        }
    }
    (lo, false)
}

/// Puts a text into a sorted vector unless it is there already.
pub(crate) fn insert_sorted(v: &mut Vec<String>, key: String)
    requires
        strictly_sorted(old(v).deep_view()),
    ensures
        strictly_sorted(final(v).deep_view()),
        final(v).deep_view().to_set() == old(v).deep_view().to_set().insert(key@),
{
    let ghost before = v.deep_view();
    let (at, found) = search(v, key.as_str());
    proof {
        located_decides_membership(before, key@, at as int, found);
    }
    if found {
        assert(before.to_set().insert(key@) =~= before.to_set());
    } else {
        v.insert(at, key);
        let ghost after = v.deep_view();
        assert(after =~= before.insert(at as int, key@));
        assert forall|i: int, j: int| 0 <= i < j < after.len() implies text_lt(
            after[i],
            after[j],
        ) by {
            let bi = if i < at { i } else { i - 1 };
            let bj = if j < at { j } else { j - 1 };
            if i != at && j != at {
                assert(text_lt(before[bi], before[bj]));
            } else if i == at {
                assert(text_lt(key@, before[bj]));
            } else {
                assert(text_lt(before[bi], key@));
            }
        }
        assert forall|t: Seq<char>| after.to_set().contains(t) <==> before.to_set().insert(
            key@,
        ).contains(t) by {
            if after.contains(t) {
                let n = choose|n: int| 0 <= n < after.len() && after[n] == t;
                if n < at {
                    assert(before[n] == t);
                } else if n > at {
                    assert(before[n - 1] == t);
                }
            }
            if before.contains(t) {
                let n = choose|n: int| 0 <= n < before.len() && before[n] == t;
                if n < at {
                    assert(after[n] == t);
                } else {
                    assert(after[n + 1] == t);
                }
            }
            if t == key@ {
                assert(after[at as int] == t);
            }
        }
        assert(after.to_set() =~= before.to_set().insert(key@));
    }
}

} // verus!
