//! Canonical error lines: what a diagnostic quotes between backticks is
//! replaced by a fixed placeholder, so that lines which differ only in the
//! quoted names fall into one group.

use vstd::prelude::*;
use crate::text::{chars_of, string_of};

verus! {

/// What scanning `s` emits when the scan starts inside a quoted span
/// (`inside`) or outside one.
///
/// A backtick is always emitted and flips the state; one that closes a span
/// is preceded by the placeholder `...`. Any other character is emitted only
/// outside a span.
pub open spec fn erase_from(s: Seq<char>, inside: bool) -> Seq<char>
    decreases s.len(),
{
    if s.len() == 0 {
        Seq::empty()
    } else if s[0] == '`' {
        if inside {
            seq!['.', '.', '.', '`'] + erase_from(s.drop_first(), false)
        } else {
            seq!['`'] + erase_from(s.drop_first(), true)
        }
    } else if inside {
        erase_from(s.drop_first(), true)
    } else {
        seq![s[0]] + erase_from(s.drop_first(), false)
    }
}

/// The canonical form of a line: the scan starts outside any span.
pub open spec fn canonical(s: Seq<char>) -> Seq<char> {
    erase_from(s, false)
}

/// Whether the scan is inside a span once it has read all of `s`.
pub open spec fn inside_after(s: Seq<char>, inside: bool) -> bool
    decreases s.len(),
{
    if s.len() == 0 {
        inside
    } else if s[0] == '`' {
        inside_after(s.drop_first(), !inside)
    } else {
        inside_after(s.drop_first(), inside)
    }
}

/// Scanning a concatenation is scanning its first part, then its second part
/// from the state the first part left.
pub proof fn erase_from_concat(a: Seq<char>, b: Seq<char>, inside: bool)
    ensures
        erase_from(a + b, inside) == erase_from(a, inside) + erase_from(b, inside_after(a, inside)),
        inside_after(a + b, inside) == inside_after(b, inside_after(a, inside)),
    decreases a.len(),
{
    if a.len() == 0 {
        assert(a + b =~= b);
    } else {
        assert((a + b).drop_first() =~= a.drop_first() + b);
        let next = if a[0] == '`' { !inside } else { inside };
        erase_from_concat(a.drop_first(), b, next);
    }
}

/// Text without a backtick is emitted unchanged outside a span and dropped
/// inside one, and leaves the state as it was.
pub proof fn erase_from_plain(s: Seq<char>, inside: bool)
    requires
        !s.contains('`'),
    ensures
        erase_from(s, inside) == if inside { Seq::<char>::empty() } else { s },
        inside_after(s, inside) == inside,
    decreases s.len(),
{
    if s.len() > 0 {
        assert(s[0] != '`');
        assert forall|i: int| 0 <= i < s.drop_first().len() implies s.drop_first()[i] != '`' by {
            assert(s.drop_first()[i] == s[i + 1]);
        }
        erase_from_plain(s.drop_first(), inside);
        assert(seq![s[0]] + s.drop_first() =~= s);
    }
}

/// A line that quotes nothing is its own canonical form.
pub proof fn canonical_of_plain(s: Seq<char>)
    requires
        !s.contains('`'),
    ensures
        canonical(s) == s,
{
    erase_from_plain(s, false);
}

/// Scanning what a scan emitted emits the same again, from either state.
pub proof fn erase_from_idempotent(s: Seq<char>, inside: bool)
    ensures
        erase_from(erase_from(s, inside), inside) == erase_from(s, inside),
    decreases s.len(),
{
    if s.len() > 0 {
        let t = s.drop_first();
        if s[0] == '`' {
            if inside {
                let head = seq!['.', '.', '.', '`'];
                erase_from_idempotent(t, false);
                erase_from_concat(head, erase_from(t, false), true);
                assert(erase_from(head, true) =~= head && !inside_after(head, true)) by {
                    reveal_with_fuel(erase_from, 5);
                    reveal_with_fuel(inside_after, 5);
                }
            } else {
                let head = seq!['`'];
                erase_from_idempotent(t, true);
                erase_from_concat(head, erase_from(t, true), false);
                assert(erase_from(head, false) =~= head && inside_after(head, false)) by {
                    reveal_with_fuel(erase_from, 2);
                    reveal_with_fuel(inside_after, 2);
                }
            }
        } else if inside {
            erase_from_idempotent(t, true);
        } else {
            let head = seq![s[0]];
            erase_from_idempotent(t, false);
            erase_from_concat(head, erase_from(t, false), false);
            assert(erase_from(head, false) =~= head && !inside_after(head, false)) by {
                reveal_with_fuel(erase_from, 2);
                reveal_with_fuel(inside_after, 2);
            }
        }
    }
}

/// Canonical lines are fixed points: in a canonical line every closed span
/// holds the placeholder and nothing else.
pub proof fn canonical_idempotent(s: Seq<char>)
    ensures
        canonical(canonical(s)) == canonical(s),
{
    erase_from_idempotent(s, false);
}

/// Whether every span of `s` that is closed holds the placeholder and nothing
/// else, and nothing follows a backtick that opens a span without closing
/// it. The text is read from inside a span (`inside`) or from outside one.
pub open spec fn placeholders_only(s: Seq<char>, inside: bool) -> bool
    decreases s.len(),
{
    if s.len() == 0 {
        true
    } else if inside {
        seq!['.', '.', '.', '`'].is_prefix_of(s) && placeholders_only(s.skip(4), false)
    } else {
        placeholders_only(s.drop_first(), s[0] == '`')
    }
}

/// What a scan emits quotes nothing but the placeholder.
pub proof fn erase_from_leaves_placeholders(s: Seq<char>, inside: bool)
    ensures
        placeholders_only(erase_from(s, inside), inside),
    decreases s.len(),
{
    if s.len() > 0 {
        let t = s.drop_first();
        if s[0] == '`' {
            if inside {
                let head = seq!['.', '.', '.', '`'];
                erase_from_leaves_placeholders(t, false);
                assert((head + erase_from(t, false)).skip(4) =~= erase_from(t, false));
                assert((head + erase_from(t, false)).subrange(0, 4) =~= head);
            } else {
                erase_from_leaves_placeholders(t, true);
                assert((seq!['`'] + erase_from(t, true)).drop_first() =~= erase_from(t, true));
            }
        } else if inside {
            erase_from_leaves_placeholders(t, true);
        } else {
            erase_from_leaves_placeholders(t, false);
            assert((seq![s[0]] + erase_from(t, false)).drop_first() =~= erase_from(t, false));
        }
    }
}

/// In a canonical line nothing is quoted but the placeholder.
pub proof fn canonical_leaves_placeholders(s: Seq<char>)
    ensures
        placeholders_only(canonical(s), false),
{
    erase_from_leaves_placeholders(s, false);
}

/// Two lines that differ only in what one matched span quotes have the same
/// canonical form. The span opens after `before`, which itself leaves the
/// scan outside any span, and its contents `x` and `y` hold no backtick.
pub proof fn canonical_ignores_quoted(
    before: Seq<char>,
    x: Seq<char>,
    y: Seq<char>,
    after: Seq<char>,
)
    requires
        !inside_after(before, false),
        !x.contains('`'),
        !y.contains('`'),
    ensures
        canonical(before + seq!['`'] + x + seq!['`'] + after) == canonical(
            before + seq!['`'] + y + seq!['`'] + after,
        ),
{
    quoted_span(before, x, after);
    quoted_span(before, y, after);
}

/// The canonical form of a line with a matched span after `before`.
proof fn quoted_span(before: Seq<char>, x: Seq<char>, after: Seq<char>)
    requires
        !inside_after(before, false),
        !x.contains('`'),
    ensures
        canonical(before + seq!['`'] + x + seq!['`'] + after) == canonical(before) + seq![
            '`',
            '.',
            '.',
            '.',
            '`',
        ] + canonical(after),
{
    let tick = seq!['`'];
    assert(erase_from(tick, false) =~= tick && inside_after(tick, false)) by {
        reveal_with_fuel(erase_from, 2);
        reveal_with_fuel(inside_after, 2);
    }
    assert(erase_from(tick, true) =~= seq!['.', '.', '.', '`'] && !inside_after(tick, true)) by {
        reveal_with_fuel(erase_from, 2);
        reveal_with_fuel(inside_after, 2);
    }
    erase_from_plain(x, true);
    erase_from_concat(before, tick, false);
    erase_from_concat(before + tick, x, false);
    erase_from_concat(before + tick + x, tick, false);
    erase_from_concat(before + tick + x + tick, after, false);
    assert(canonical(before) + tick + Seq::<char>::empty() + seq!['.', '.', '.', '`'] + canonical(
        after,
    ) =~= canonical(before) + seq!['`', '.', '.', '.', '`'] + canonical(after));
}

/// A prefix without a backtick opens a line exactly when it opens the line's
/// canonical form.
pub proof fn canonical_keeps_plain_prefix(s: Seq<char>, p: Seq<char>)
    requires
        !p.contains('`'),
    ensures
        p.is_prefix_of(canonical(s)) <==> p.is_prefix_of(s),
    decreases p.len(),
{
    if p.len() > 0 {
        assert(p[0] != '`');
        if s.len() > 0 && s[0] != '`' {
            let c = canonical(s);
            let st = s.drop_first();
            let pt = p.drop_first();
            assert forall|i: int| 0 <= i < pt.len() implies pt[i] != '`' by {
                assert(pt[i] == p[i + 1]);
            }
            canonical_keeps_plain_prefix(st, pt);
            assert(c.drop_first() =~= canonical(st));
            assert(p.is_prefix_of(c) <==> (p[0] == c[0] && pt.is_prefix_of(c.drop_first()))) by {
                prefix_by_head(c, p);
            }
            assert(p.is_prefix_of(s) <==> (p[0] == s[0] && pt.is_prefix_of(st))) by {
                prefix_by_head(s, p);
            }
        } else if s.len() > 0 {
            assert(canonical(s)[0] == '`');
            if p.is_prefix_of(s) {
                assert(s.subrange(0, p.len() as int)[0] == p[0]);
            }
            if p.is_prefix_of(canonical(s)) {
                assert(canonical(s).subrange(0, p.len() as int)[0] == p[0]);
            }
        }
    }
}

/// A non-empty prefix opens `s` when their first characters agree and the
/// rest of the prefix opens the rest of `s`.
proof fn prefix_by_head(s: Seq<char>, p: Seq<char>)
    requires
        s.len() > 0,
        p.len() > 0,
    ensures
        p.is_prefix_of(s) <==> (p[0] == s[0] && p.drop_first().is_prefix_of(s.drop_first())),
{
    let pt = p.drop_first();
    let st = s.drop_first();
    if p.is_prefix_of(s) {
        let w = s.subrange(0, p.len() as int);
        assert(w[0] == p[0]);
        assert forall|i: int| 0 <= i < pt.len() implies pt[i] == st.subrange(0, pt.len() as int)[i] by {
            assert(w[i + 1] == p[i + 1]);
        }
        assert(pt =~= st.subrange(0, pt.len() as int));
    }
    if p[0] == s[0] && pt.is_prefix_of(st) {
        let w = st.subrange(0, pt.len() as int);
        assert forall|i: int| 0 <= i < p.len() implies p[i] == s.subrange(0, p.len() as int)[i] by {
            if i > 0 {
                assert(w[i - 1] == pt[i - 1]);
            }
        }
        assert(p =~= s.subrange(0, p.len() as int));
    }
}

/// The canonical form of a line held as characters.
pub(crate) fn canonical_chars(line: &Vec<char>) -> (out: Vec<char>)
    ensures
        out@ == canonical(line@),
{
    let mut out: Vec<char> = Vec::new();
    let mut inside = false;
    let mut i: usize = 0;
    assert(out@ + erase_from(line@.skip(0), false) =~= canonical(line@)) by {
        assert(line@.skip(0) =~= line@);
    }
    while i < line.len()
        invariant
            0 <= i <= line.len(),
            out@ + erase_from(line@.skip(i as int), inside) == canonical(line@),
        decreases line.len() - i,
    {
        let ghost rest = line@.skip(i as int);
        let ghost before = out@;
        assert(rest.drop_first() =~= line@.skip(i + 1));
        let ch = line[i];
        if ch == '`' {
            if inside {
                out.push('.');
                out.push('.');
                out.push('.');
            }
            inside = !inside;
            out.push(ch);
        } else if !inside {
            out.push(ch);
        }
        i += 1;
        assert(out@ + erase_from(line@.skip(i as int), inside) =~= before + erase_from(
            rest,
            old_state(ch, inside),
        ));
    }
    assert(out@ + Seq::<char>::empty() =~= out@);
    out
}

/// The state before a character that left the scan in state `now`.
spec fn old_state(ch: char, now: bool) -> bool {
    if ch == '`' {
        !now
    } else {
        now
    }
}

/// Replaces what a line quotes between backticks by `...`.
///
/// The scan goes through the line once. A backtick outside a span opens one;
/// a backtick inside a span closes it and is preceded by `...`; what stands
/// in between is dropped. After an odd number of backticks the rest of the
/// line is dropped.
pub fn erase_backtick_contents(line: &str) -> (r: String)
    ensures
        r@ == canonical(line@),
{
    let chars = chars_of(line);
    let out = canonical_chars(&chars);
    string_of(&out)
}

} // verus!
