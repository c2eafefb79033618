//! Character sequences: conversion between strings and character vectors,
//! prefixes, and the lexicographic order on text.

use vstd::prelude::*;
use vstd::std_specs::iter::IteratorSpec;

verus! {

/// Text as contracts speak of it: a sequence of characters.
pub type Text = Seq<char>;

/// The result of comparing two texts.
#[derive(Clone, Copy, Debug, PartialEq, Eq, Structural)]
pub enum Order {
    Less,
    Equal,
    Greater,
}

/// `a` and `b` agree on their first `k` characters, and at position `k`
/// either `a` ends while `b` goes on, or `a` has the smaller character.
pub open spec fn precedes_at(a: Seq<char>, b: Seq<char>, k: int) -> bool {
    &&& 0 <= k <= a.len()
    &&& k <= b.len()
    &&& a.take(k) == b.take(k)
    &&& if k == a.len() {
        k < b.len()
    } else {
        k < b.len() && a[k] < b[k]
    }
}

/// The strict lexicographic order on text, character by character in the
/// order of code points. This is the order in which strings sort.
pub open spec fn text_lt(a: Seq<char>, b: Seq<char>) -> bool {
    exists|k: int| precedes_at(a, b, k)
}

/// The order is irreflexive.
pub proof fn text_lt_irreflexive(a: Seq<char>)
    ensures
        !text_lt(a, a),
{
}

/// The order is asymmetric: of two texts at most one precedes the other.
pub proof fn text_lt_asymmetric(a: Seq<char>, b: Seq<char>)
    requires
        text_lt(a, b),
    ensures
        !text_lt(b, a),
        a != b,
{
    let k = choose|k: int| precedes_at(a, b, k);
    assert forall|j: int| precedes_at(b, a, j) implies false by {
        if j < k {
            assert(a.take(k)[j] == b.take(k)[j]);
        } else if k < j {
            assert(b.take(j)[k] == a.take(j)[k]);
        }
    }
}

/// The order is transitive.
pub proof fn text_lt_transitive(a: Seq<char>, b: Seq<char>, c: Seq<char>)
    requires
        text_lt(a, b),
        text_lt(b, c),
    ensures
        text_lt(a, c),
{
    let i = choose|k: int| precedes_at(a, b, k);
    let j = choose|k: int| precedes_at(b, c, k);
    let k = if i <= j { i } else { j };
    assert(a.take(k) =~= c.take(k)) by {
        assert forall|n: int| 0 <= n < k implies a[n] == c[n] by {
            assert(a.take(i)[n] == b.take(i)[n]);
            assert(b.take(j)[n] == c.take(j)[n]);
        }
    }
    if i < j {
        assert(b.take(j)[i] == c.take(j)[i]);
    } else if j < i {
        assert(a.take(i)[j] == b.take(i)[j]);
    }
    assert(precedes_at(a, c, k));
}

/// Two different texts are comparable: one of them precedes the other.
pub proof fn text_lt_connected(a: Seq<char>, b: Seq<char>)
    requires
        a != b,
    ensures
        text_lt(a, b) || text_lt(b, a),
{
    let k = common_prefix_len(a, b);
    common_prefix(a, b);
    if k == a.len() && k == b.len() {
        assert(a =~= a.take(k));
        assert(b =~= b.take(k));
    } else if k == a.len() || (k < b.len() && a[k] < b[k]) {
        assert(precedes_at(a, b, k));
    } else {
        assert(precedes_at(b, a, k));
    }
}

/// The number of characters on which `a` and `b` agree from the start.
pub open spec fn common_prefix_len(a: Seq<char>, b: Seq<char>) -> int
    decreases a.len(),
{
    if a.len() == 0 || b.len() == 0 || a[0] != b[0] {
        0
    } else {
        1 + common_prefix_len(a.drop_first(), b.drop_first())
    }
}

/// Up to their common prefix two texts are the same, and right after it they
/// differ or one of them ends.
proof fn common_prefix(a: Seq<char>, b: Seq<char>)
    ensures
        0 <= common_prefix_len(a, b) <= a.len(),
        common_prefix_len(a, b) <= b.len(),
        a.take(common_prefix_len(a, b)) == b.take(common_prefix_len(a, b)),
        common_prefix_len(a, b) < a.len() && common_prefix_len(a, b) < b.len() ==> a[common_prefix_len(
            a,
            b,
        )] != b[common_prefix_len(a, b)],
    decreases a.len(),
{
    let k = common_prefix_len(a, b);
    if a.len() == 0 || b.len() == 0 || a[0] != b[0] {
        assert(a.take(0) =~= b.take(0));
    } else {
        let at = a.drop_first();
        let bt = b.drop_first();
        common_prefix(at, bt);
        assert(a.take(k) =~= seq![a[0]] + at.take(k - 1));
        assert(b.take(k) =~= seq![b[0]] + bt.take(k - 1));
        if k < a.len() && k < b.len() {
            assert(at[k - 1] == a[k] && bt[k - 1] == b[k]);
        }
    }
}

/// The texts that a vector of character vectors holds.
pub open spec fn rows(v: Seq<Vec<char>>) -> Seq<Seq<char>> {
    v.map_values(|row: Vec<char>| row@)
}

/// Copies the characters of a string into a vector.
pub fn chars_of(s: &str) -> (v: Vec<char>)
    ensures
        v@ == s@,
{
    let mut v: Vec<char> = Vec::new();
    for c in it: s.chars()
        invariant
            v@ == it.seq().take(it.index() as int),
    {
        v.push(c);
    }
    v
}

/// Builds a string from a vector of characters.
///
/// Calls `String::from_iter` of the standard library, which collects the
/// characters it is given, in their order, into a new string. The contract
/// claims exactly that: the string holds the characters of `v`.
#[verifier::external_body]
pub(crate) fn string_of(v: &Vec<char>) -> (s: String)
    ensures
        s@ == v@,
{
    String::from_iter(v)
}

/// Compares two strings in the lexicographic order of their characters.
pub fn compare(a: &str, b: &str) -> (o: Order)
    ensures
        o == Order::Less <==> text_lt(a@, b@),
        o == Order::Equal <==> a@ == b@,
        o == Order::Greater <==> text_lt(b@, a@),
{
    let mut ia = a.chars();
    let mut ib = b.chars();
    let ghost mut n: int = 0;
    loop
        invariant
            0 <= n <= a@.len(),
            n <= b@.len(),
            a@.take(n) == b@.take(n),
            ia.remaining() == a@.skip(n),
            ib.remaining() == b@.skip(n),
        decreases a@.len() - n,
    {
        let x = ia.next();
        let y = ib.next();
        match (x, y) {
            (None, None) => {
                proof {
                    assert(a@ =~= a@.take(n));
                    assert(b@ =~= b@.take(n));
                    text_lt_irreflexive(a@);
                }
                return Order::Equal;
            },
            (None, Some(_)) => {
                proof {
                    assert(precedes_at(a@, b@, n));
                    text_lt_asymmetric(a@, b@);
                }
                return Order::Less;
            },
            (Some(_), None) => {
                proof {
                    assert(precedes_at(b@, a@, n));
                    text_lt_asymmetric(b@, a@);
                }
                return Order::Greater;
            },
            (Some(p), Some(q)) => {
                if p < q {
                    proof {
                        assert(precedes_at(a@, b@, n));
                        text_lt_asymmetric(a@, b@);
                    }
                    return Order::Less;
                } else if q < p {
                    proof {
                        assert(precedes_at(b@, a@, n));
                        text_lt_asymmetric(b@, a@);
                    }
                    return Order::Greater;
                }
                proof {
                    assert(a@.take(n + 1) =~= a@.take(n).push(a@[n]));
                    assert(b@.take(n + 1) =~= b@.take(n).push(b@[n]));
                    assert(a@.skip(n + 1) =~= a@.skip(n).drop_first());
                    assert(b@.skip(n + 1) =~= b@.skip(n).drop_first());
                    n = n + 1;
                }
            },
        }
    }
}

/// Whether `p` stands in `s` at position `from`.
pub(crate) fn starts_with_at(s: &Vec<char>, from: usize, p: &Vec<char>) -> (b: bool)
    requires
        from <= s.len(),
    ensures
        b == p@.is_prefix_of(s@.skip(from as int)),
{
    let ghost rest = s@.skip(from as int);
    if p.len() > s.len() - from {
        return false;
    }
    let mut i: usize = 0;
    while i < p.len()
        invariant
            from + p.len() <= s.len(),
            0 <= i <= p.len(),
            rest == s@.skip(from as int),
            forall|j: int| 0 <= j < i ==> p@[j] == rest[j],
        decreases p.len() - i,
    {
        if p[i] != s[from + i] {
            proof {
                if p@.is_prefix_of(rest) {
                    assert(rest.subrange(0, p@.len() as int)[i as int] == p@[i as int]);
                }
            }
            return false;
        }
        i += 1;
    }
    assert(p@ =~= rest.subrange(0, p@.len() as int));
    true
}

/// Whether `p` opens `s`.
pub(crate) fn starts_with(s: &Vec<char>, p: &str) -> (b: bool)
    ensures
        b == p@.is_prefix_of(s@),
{
    let mut i: usize = 0;
    for c in it: p.chars()
        invariant
            i == it.index(),
            it.seq() == p@,
            i <= s.len(),
            forall|j: int| 0 <= j < i ==> p@[j] == s@[j],
    {
        if i >= s.len() || s[i] != c {
            proof {
                if p@.is_prefix_of(s@) {
                    assert(s@.subrange(0, p@.len() as int)[i as int] == p@[i as int]);
                }
            }
            return false;
        }
        i += 1;
    }
    assert(p@ =~= s@.subrange(0, p@.len() as int));
    true
}

/// Copies the characters of `s` from position `from` up to `to`.
pub(crate) fn slice(s: &Vec<char>, from: usize, to: usize) -> (out: Vec<char>)
    requires
        from <= to <= s.len(),
    ensures
        out@ == s@.subrange(from as int, to as int),
{
    let mut out: Vec<char> = Vec::new();
    let mut i: usize = from;
    while i < to
        invariant
            from <= i <= to,
            to <= s.len(),
            out@ == s@.subrange(from as int, i as int),
        decreases to - i,
    {
        out.push(s[i]);
        assert(s@.subrange(from as int, i + 1) =~= s@.subrange(from as int, i as int).push(s@[i as int]));
        i += 1;
    }
    out
}

} // verus!
