//! Picks the compiler errors out of a build log.
//!
//! A log interleaves the bookkeeping of the build harness with what the
//! compiler wrote to standard error. Only lines that the harness marks as
//! standard error, and that open with `error:` or `error[`, report an error;
//! of those, the summaries that every failed build ends with are left out.

use vstd::prelude::*;
use crate::canon::{
    canonical, canonical_chars, canonical_idempotent, canonical_keeps_plain_prefix,
    canonical_leaves_placeholders, placeholders_only,
};
use crate::sorted::{insert_sorted, strictly_sorted};
use crate::text::{chars_of, rows, slice, starts_with, starts_with_at, string_of};

verus! {

/// What the harness writes in front of a line captured from standard error.
pub const MARKER: &'static str = "[INFO] [stderr]";

/// White space as Unicode defines it: what trimming removes.
pub open spec fn is_whitespace(c: char) -> bool {
    let u = c as u32;
    ||| 0x09 <= u <= 0x0d
    ||| u == 0x20
    ||| u == 0x85
    ||| u == 0xa0
    ||| u == 0x1680
    ||| 0x2000 <= u <= 0x200a
    ||| u == 0x2028
    ||| u == 0x2029
    ||| u == 0x202f
    ||| u == 0x205f
    ||| u == 0x3000
}

/// `s` without every leading occurrence of `p`.
pub open spec fn strip_repeated(s: Seq<char>, p: Seq<char>) -> Seq<char>
    decreases s.len(),
{
    if p.len() > 0 && p.is_prefix_of(s) {
        strip_repeated(s.skip(p.len() as int), p)
    } else {
        s
    }
}

/// `s` without its leading white space.
pub open spec fn trim_start(s: Seq<char>) -> Seq<char>
    decreases s.len(),
{
    if s.len() > 0 && is_whitespace(s[0]) {
        trim_start(s.drop_first())
    } else {
        s
    }
}

/// `s` without its trailing white space.
pub open spec fn trim_end(s: Seq<char>) -> Seq<char>
    decreases s.len(),
{
    if s.len() > 0 && is_whitespace(s.last()) {
        trim_end(s.drop_last())
    } else {
        s
    }
}

/// `s` without the white space around it.
pub open spec fn trim(s: Seq<char>) -> Seq<char> {
    trim_end(trim_start(s))
}

/// What a marked line says: the line without its markers and without the
/// white space around the rest.
pub open spec fn payload(line: Seq<char>) -> Seq<char> {
    trim(strip_repeated(line, MARKER@))
}

/// Whether a message opens as a compiler error does, with or without a code.
pub open spec fn is_error(message: Seq<char>) -> bool {
    "error:"@.is_prefix_of(message) || "error["@.is_prefix_of(message)
}

/// Whether a message is one of the summaries that follow a failed build
/// whatever made it fail.
pub open spec fn is_noise(message: Seq<char>) -> bool {
    ||| "error: aborting"@.is_prefix_of(message)
    ||| "error: could not compile"@.is_prefix_of(message)
    ||| "error: Compilation failed, aborting rustdoc"@.is_prefix_of(message)
    ||| "error: Could not document"@.is_prefix_of(message)
    ||| "error: build failed"@.is_prefix_of(message)
    ||| "error: the lock file"@.is_prefix_of(message)
}

/// Whether the harness marks a line as captured from standard error.
pub open spec fn is_marked(line: Seq<char>) -> bool {
    MARKER@.is_prefix_of(line)
}

/// Whether a line of the log reports an error that counts.
pub open spec fn qualifies(line: Seq<char>) -> bool {
    &&& is_marked(line)
    &&& is_error(payload(line))
    &&& !is_noise(payload(line))
}

/// The number of characters before the first line feed of `s`, or the length
/// of `s` where it has none.
pub open spec fn first_line_len(s: Seq<char>) -> nat
    decreases s.len(),
{
    if s.len() == 0 || s[0] == '\n' {
        0
    } else {
        1 + first_line_len(s.drop_first())
    }
}

/// The lines of a text. Each line feed ends a line; what follows the last
/// line feed is a line if it is not empty. A carriage return before a line
/// feed stays in the line, as white space at its end.
pub open spec fn lines_of(s: Seq<char>) -> Seq<Seq<char>>
    decreases s.len(),
{
    if s.len() == 0 {
        Seq::empty()
    } else {
        let n = first_line_len(s) as int;
        if n >= s.len() {
            seq![s]
        } else {
            seq![s.take(n)] + lines_of(s.skip(n + 1))
        }
    }
}

/// The messages of those among `lines` that qualify, in their order.
pub open spec fn messages_of(lines: Seq<Seq<char>>) -> Seq<Seq<char>> {
    lines.filter(|line: Seq<char>| qualifies(line)).map_values(|line: Seq<char>| payload(line))
}

/// The messages of the lines of a log that qualify, in the order of the log.
pub open spec fn error_lines(text: Seq<char>) -> Seq<Seq<char>> {
    messages_of(lines_of(text))
}

/// The canonical forms of `messages`, as a set.
pub open spec fn keys_of(messages: Seq<Seq<char>>) -> Set<Seq<char>> {
    messages.map_values(|message: Seq<char>| canonical(message)).to_set()
}

/// The canonical errors of a log: each error once, however often the log
/// repeats it.
pub open spec fn error_keys(text: Seq<char>) -> Set<Seq<char>> {
    keys_of(error_lines(text))
}

/// Where the leading white space of `s` ends.
proof fn trim_start_cuts(s: Seq<char>) -> (a: int)
    ensures
        0 <= a <= s.len(),
        trim_start(s) == s.skip(a),
        forall|i: int| 0 <= i < a ==> is_whitespace(s[i]),
        a < s.len() ==> !is_whitespace(s[a]),
    decreases s.len(),
{
    if s.len() > 0 && is_whitespace(s[0]) {
        let t = s.drop_first();
        let a = trim_start_cuts(t);
        assert(t.skip(a) =~= s.skip(a + 1));
        assert forall|i: int| 0 <= i < a + 1 implies is_whitespace(s[i]) by {
            if i > 0 {
                assert(t[i - 1] == s[i]);
            }
        }
        if a + 1 < s.len() {
            assert(t[a] == s[a + 1]);
        }
        a + 1
    } else {
        assert(s.skip(0) =~= s);
        0
    }
}

/// Where the trailing white space of `s` begins.
proof fn trim_end_cuts(s: Seq<char>) -> (b: int)
    ensures
        0 <= b <= s.len(),
        trim_end(s) == s.take(b),
        forall|i: int| b <= i < s.len() ==> is_whitespace(s[i]),
        b > 0 ==> !is_whitespace(s[b - 1]),
    decreases s.len(),
{
    if s.len() > 0 && is_whitespace(s.last()) {
        let t = s.drop_last();
        let b = trim_end_cuts(t);
        assert(t.take(b) =~= s.take(b));
        assert forall|i: int| b <= i < s.len() implies is_whitespace(s[i]) by {
            if i < t.len() {
                assert(t[i] == s[i]);
            }
        }
        if b > 0 {
            assert(t[b - 1] == s[b - 1]);
        }
        b
    } else {
        assert(s.take(s.len() as int) =~= s);
        s.len() as int
    }
}

/// Trimming takes away the white space at both ends and nothing else: what
/// stays is the stretch of `s` from its first to its last character that is
/// not white space.
pub proof fn trim_keeps_the_core(s: Seq<char>)
    ensures
        exists|a: int, b: int|
            {
                &&& 0 <= a <= b <= s.len()
                &&& #[trigger] s.subrange(a, b) == trim(s)
                &&& forall|i: int| 0 <= i < a ==> is_whitespace(s[i])
                &&& forall|i: int| b <= i < s.len() ==> is_whitespace(s[i])
            },
        trim(s).len() > 0 ==> !is_whitespace(trim(s)[0]) && !is_whitespace(trim(s).last()),
{
    let a = trim_start_cuts(s);
    let t = s.skip(a);
    let n = trim_end_cuts(t);
    let b = a + n;
    assert(t.take(n) =~= s.subrange(a, b));
    assert forall|i: int| b <= i < s.len() implies is_whitespace(s[i]) by {
        assert(t[i - a] == s[i]);
    }
    if n > 0 {
        assert(t[0] == s[a]);
        assert(t[n - 1] == s[b - 1]);
    }
    assert(s.subrange(a, b) == trim(s));
}

/// No line holds a line feed.
pub proof fn lines_hold_no_line_feed(s: Seq<char>, i: int)
    requires
        0 <= i < lines_of(s).len(),
    ensures
        !lines_of(s)[i].contains('\n'),
    decreases s.len(),
{
    let n = first_line_len(s) as int;
    first_line_is_plain(s);
    if n >= s.len() {
        assert(s.take(n) =~= s);
    } else if i > 0 {
        lines_hold_no_line_feed(s.skip(n + 1), i - 1);
        assert(lines_of(s)[i] == lines_of(s.skip(n + 1))[i - 1]);
    }
}

/// The first line holds no line feed, and a line feed ends it unless the text
/// ends there.
proof fn first_line_is_plain(s: Seq<char>)
    ensures
        first_line_len(s) <= s.len(),
        !s.take(first_line_len(s) as int).contains('\n'),
        first_line_len(s) < s.len() ==> s[first_line_len(s) as int] == '\n',
    decreases s.len(),
{
    if !(s.len() == 0 || s[0] == '\n') {
        let t = s.drop_first();
        let n = first_line_len(t) as int;
        first_line_is_plain(t);
        let first = s.take(n + 1);
        assert forall|j: int| 0 <= j < first.len() implies first[j] != '\n' by {
            if j > 0 {
                assert(t.take(n)[j - 1] == s[j]);
            }
        }
    }
}

/// The lines of a text, each followed by a line feed, make up the text; the
/// last line feed is missing where the text does not end with one.
pub proof fn lines_make_up_the_text(s: Seq<char>)
    ensures
        s.len() > 0 && s.last() == '\n' ==> joined(lines_of(s)) == s,
        s.len() > 0 && s.last() != '\n' ==> joined(lines_of(s)) == s.push('\n'),
        s.len() == 0 ==> joined(lines_of(s)) == s,
    decreases s.len(),
{
    if s.len() > 0 {
        let n = first_line_len(s) as int;
        first_line_is_plain(s);
        if n >= s.len() {
            assert(seq![s].drop_first() =~= Seq::<Seq<char>>::empty());
            assert(joined(Seq::<Seq<char>>::empty()) =~= Seq::<char>::empty());
            assert(joined(seq![s]) =~= s.push('\n'));
            if s.last() == '\n' {
                assert(s.take(n)[s.len() - 1] == '\n');
            }
        } else {
            let rest = s.skip(n + 1);
            let lines = lines_of(s);
            lines_make_up_the_text(rest);
            assert(lines.drop_first() =~= lines_of(rest));
            assert(lines[0] == s.take(n));
            if rest.len() == 0 {
                assert(s =~= s.take(n).push('\n'));
            } else {
                assert(rest.last() == s.last());
                if s.last() == '\n' {
                    assert(s =~= s.take(n).push('\n') + rest);
                } else {
                    assert(s.push('\n') =~= s.take(n).push('\n') + rest.push('\n'));
                }
            }
        }
    }
}

/// The lines one after the other, each followed by a line feed.
pub open spec fn joined(lines: Seq<Seq<char>>) -> Seq<char>
    decreases lines.len(),
{
    if lines.len() == 0 {
        Seq::empty()
    } else {
        lines[0].push('\n') + joined(lines.drop_first())
    }
}

/// The messages of `lines` are those of the lines among them that qualify.
pub proof fn messages_by_content(lines: Seq<Seq<char>>, message: Seq<char>)
    ensures
        messages_of(lines).contains(message) <==> exists|line: Seq<char>|
            #[trigger] lines.contains(line) && qualifies(line) && payload(line) == message,
{
    let pred = |line: Seq<char>| qualifies(line);
    let kept = lines.filter(pred);
    let messages = messages_of(lines);
    if messages.contains(message) {
        let n = choose|n: int| 0 <= n < messages.len() && messages[n] == message;
        lines.lemma_filter_pred(pred, n);
        assert(kept.contains(kept[n]));
        lines.lemma_filter_contains_rev(pred, kept[n]);
        assert(lines.contains(kept[n]) && qualifies(kept[n]) && payload(kept[n]) == message);
    }
    if exists|line: Seq<char>|
        #[trigger] lines.contains(line) && qualifies(line) && payload(line) == message {
        let line = choose|line: Seq<char>|
            #[trigger] lines.contains(line) && qualifies(line) && payload(line) == message;
        let i = choose|i: int| 0 <= i < lines.len() && lines[i] == line;
        lines.lemma_filter_contains(pred, i);
        let n = choose|n: int| 0 <= n < kept.len() && kept[n] == line;
        assert(messages[n] == message);
    }
}

/// The canonical errors of a log are the canonical forms of the messages of
/// its lines that qualify.
pub proof fn error_keys_by_content(text: Seq<char>, key: Seq<char>)
    ensures
        error_keys(text).contains(key) <==> exists|line: Seq<char>|
            #[trigger] lines_of(text).contains(line) && qualifies(line) && canonical(payload(line))
                == key,
{
    let lines = lines_of(text);
    let messages = error_lines(text);
    let keys = messages.map_values(|message: Seq<char>| canonical(message));
    if error_keys(text).contains(key) {
        assert(keys.contains(key));
        let n = choose|n: int| 0 <= n < keys.len() && keys[n] == key;
        assert(messages.contains(messages[n]));
        messages_by_content(lines, messages[n]);
    }
    if exists|line: Seq<char>|
        #[trigger] lines.contains(line) && qualifies(line) && canonical(payload(line)) == key {
        let line = choose|line: Seq<char>|
            #[trigger] lines.contains(line) && qualifies(line) && canonical(payload(line)) == key;
        messages_by_content(lines, payload(line));
        let n = choose|n: int| 0 <= n < messages.len() && messages[n] == payload(line);
        assert(keys[n] == key);
    }
}

/// No summary of a failed build is among the canonical errors of a log.
/// Every canonical error opens as a compiler error does, quotes nothing but
/// the placeholder, and is its own canonical form.
pub proof fn error_keys_are_errors(text: Seq<char>, key: Seq<char>)
    requires
        error_keys(text).contains(key),
    ensures
        is_error(key),
        !is_noise(key),
        placeholders_only(key, false),
        canonical(key) == key,
{
    error_keys_by_content(text, key);
    let line = choose|line: Seq<char>|
        #[trigger] lines_of(text).contains(line) && qualifies(line) && canonical(payload(line))
            == key;
    let message = payload(line);
    canonical_idempotent(message);
    canonical_leaves_placeholders(message);
    reveal_strlit("error:");
    reveal_strlit("error[");
    reveal_strlit("error: aborting");
    reveal_strlit("error: could not compile");
    reveal_strlit("error: Compilation failed, aborting rustdoc");
    reveal_strlit("error: Could not document");
    reveal_strlit("error: build failed");
    reveal_strlit("error: the lock file");
    canonical_keeps_plain_prefix(message, "error:"@);
    canonical_keeps_plain_prefix(message, "error["@);
    canonical_keeps_plain_prefix(message, "error: aborting"@);
    canonical_keeps_plain_prefix(message, "error: could not compile"@);
    canonical_keeps_plain_prefix(message, "error: Compilation failed, aborting rustdoc"@);
    canonical_keeps_plain_prefix(message, "error: Could not document"@);
    canonical_keeps_plain_prefix(message, "error: build failed"@);
    canonical_keeps_plain_prefix(message, "error: the lock file"@);
}

/// Lines without the marker of standard error count for nothing, whatever
/// they say: the messages of `lines` are those of its marked lines alone.
pub proof fn unmarked_lines_are_excluded(lines: Seq<Seq<char>>)
    ensures
        messages_of(lines) == messages_of(lines.filter(|line: Seq<char>| is_marked(line))),
    decreases lines.len(),
{
    let marked = |line: Seq<char>| is_marked(line);
    if lines.len() == 0 {
        assert(lines.filter(marked) =~= lines) by {
            reveal(Seq::filter);
        }
    } else {
        let rest = lines.drop_last();
        let last = lines.last();
        assert(lines =~= rest.push(last));
        unmarked_lines_are_excluded(rest);
        rest.lemma_filter_push(last, marked);
        messages_of_push(rest, last);
        messages_of_push(rest.filter(marked), last);
    }
}

/// Whether a character is white space.
pub fn whitespace(c: char) -> (b: bool)
    ensures
        b == is_whitespace(c),
{
    let u: u32 = c as u32;
    (0x09 <= u && u <= 0x0d)
        || u == 0x20
        || u == 0x85
        || u == 0xa0
        || u == 0x1680
        || (0x2000 <= u && u <= 0x200a)
        || u == 0x2028
        || u == 0x2029
        || u == 0x202f
        || u == 0x205f
        || u == 0x3000
}

/// The message of a line: the line without its leading markers and without
/// the white space around the rest.
pub(crate) fn message_of(line: &Vec<char>) -> (out: Vec<char>)
    ensures
        out@ == payload(line@),
{
    let marker = chars_of(MARKER);
    let mut from: usize = 0;
    assert(line@.skip(0) =~= line@);
    while marker.len() > 0 && starts_with_at(line, from, &marker)
        invariant
            from <= line.len(),
            marker@ == MARKER@,
            strip_repeated(line@.skip(from as int), marker@) == strip_repeated(line@, marker@),
        decreases line.len() - from,
    {
        assert(line@.skip(from as int).skip(marker@.len() as int) =~= line@.skip(
            from + marker@.len(),
        ));
        from += marker.len();
    }
    let ghost stripped = line@.skip(from as int);
    assert(stripped == strip_repeated(line@, MARKER@));
    let mut to: usize = line.len();
    assert(line@.subrange(from as int, to as int) =~= stripped);
    while from < to && whitespace(line[from])
        invariant
            from <= to == line.len(),
            trim_start(line@.subrange(from as int, to as int)) == trim_start(stripped),
        decreases to - from,
    {
        assert(line@.subrange(from as int, to as int).drop_first() =~= line@.subrange(
            from + 1,
            to as int,
        ));
        from += 1;
    }
    let ghost left = line@.subrange(from as int, to as int);
    assert(left == trim_start(stripped));
    while from < to && whitespace(line[to - 1])
        invariant
            from <= to <= line.len(),
            trim_end(line@.subrange(from as int, to as int)) == trim_end(left),
        decreases to - from,
    {
        assert(line@.subrange(from as int, to as int).drop_last() =~= line@.subrange(
            from as int,
            to - 1,
        ));
        to -= 1;
    }
    slice(line, from, to)
}

/// Whether a message opens as a compiler error does.
pub(crate) fn opens_as_error(message: &Vec<char>) -> (b: bool)
    ensures
        b == is_error(message@),
{
    starts_with(message, "error:") || starts_with(message, "error[")
}

/// Whether a message is a summary of a failed build.
pub(crate) fn summarises_failure(message: &Vec<char>) -> (b: bool)
    ensures
        b == is_noise(message@),
{
    starts_with(message, "error: aborting")
        || starts_with(message, "error: could not compile")
        || starts_with(message, "error: Compilation failed, aborting rustdoc")
        || starts_with(message, "error: Could not document")
        || starts_with(message, "error: build failed")
        || starts_with(message, "error: the lock file")
}

/// The message of a line if the line qualifies.
pub(crate) fn error_in(line: &Vec<char>) -> (r: Option<Vec<char>>)
    ensures
        r is Some <==> qualifies(line@),
        r matches Some(message) ==> message@ == payload(line@),
{
    if !starts_with(line, MARKER) {
        return None;
    }
    let message = message_of(line);
    if opens_as_error(&message) && !summarises_failure(&message) {
        Some(message)
    } else {
        None
    }
}

/// The first line of `s` ends at `n` if no line feed stands before `n` and
/// one stands at `n`, or `s` ends there.
proof fn first_line_ends(s: Seq<char>, n: int)
    requires
        0 <= n <= s.len(),
        forall|j: int| 0 <= j < n ==> s[j] != '\n',
        n == s.len() || s[n] == '\n',
    ensures
        first_line_len(s) == n,
    decreases n,
{
    if n > 0 {
        first_line_ends(s.drop_first(), n - 1);
    }
}

/// One more line, taken into account.
proof fn messages_of_push(lines: Seq<Seq<char>>, line: Seq<char>)
    ensures
        messages_of(lines.push(line)) == if qualifies(line) {
            messages_of(lines).push(payload(line))
        } else {
            messages_of(lines)
        },
{
    let pred = |line: Seq<char>| qualifies(line);
    lines.lemma_filter_push(line, pred);
    if qualifies(line) {
        assert(messages_of(lines.push(line)) =~= messages_of(lines).push(payload(line)));
    }
}

/// One more message, taken into account.
proof fn keys_of_push(messages: Seq<Seq<char>>, message: Seq<char>)
    ensures
        keys_of(messages.push(message)) == keys_of(messages).insert(canonical(message)),
{
    let f = |message: Seq<char>| canonical(message);
    assert(messages.push(message).map_values(f) =~= messages.map_values(f).push(
        canonical(message),
    ));
    messages.map_values(f).lemma_push_to_set_commute(canonical(message));
}

/// The messages of the lines of `text` that qualify, in the order of the
/// text.
pub(crate) fn messages_in(text: &Vec<char>) -> (out: Vec<Vec<char>>)
    ensures
        rows(out@) == error_lines(text@),
{
    let mut out: Vec<Vec<char>> = Vec::new();
    let mut start: usize = 0;
    let ghost mut done: Seq<Seq<char>> = Seq::empty();
    proof {
        assert(text@.skip(0) =~= text@);
        assert(done + lines_of(text@) =~= lines_of(text@));
        assert(rows(out@) =~= messages_of(done)) by {
            reveal(Seq::filter);
        }
    }
    while start < text.len()
        invariant
            start <= text.len(),
            done + lines_of(text@.skip(start as int)) == lines_of(text@),
            rows(out@) == messages_of(done),
        decreases text.len() - start,
    {
        let ghost rest = text@.skip(start as int);
        let mut end: usize = start;
        while end < text.len() && text[end] != '\n'
            invariant
                start <= end <= text.len(),
                forall|j: int| start <= j < end ==> text@[j] != '\n',
            decreases text.len() - end,
        {
            end += 1;
        }
        let line = slice(text, start, end);
        let ghost collected = rows(out@);
        match error_in(&line) {
            Some(message) => {
                out.push(message);
                assert(rows(out@) =~= collected.push(payload(line@)));
            },
            None => {},
        }
        proof {
            first_line_ends(rest, end - start);
            messages_of_push(done, line@);
            assert(line@ =~= rest.take(end - start));
            if end < text.len() {
                assert(rest.skip(end - start + 1) =~= text@.skip(end + 1));
                assert(done.push(line@) + lines_of(text@.skip(end + 1)) =~= done + lines_of(rest));
            } else {
                assert(line@ =~= rest);
                assert(done.push(line@) + lines_of(text@.skip(end as int)) =~= done + lines_of(
                    rest,
                ));
            }
            done = done.push(line@);
        }
        start = if end < text.len() {
            end + 1
        } else {
            end
        };
    }
    assert(done + Seq::<Seq<char>>::empty() =~= done);
    out
}

/// The error lines of a log, in the order of the log.
///
/// A line qualifies if it starts with the marker of standard error and its
/// message, which is the line without markers and surrounding white space,
/// opens with `error:` or `error[` and is no summary of a failed build. A
/// log without such a line gives an empty vector.
pub fn extract_error_lines(contents: &str) -> (lines: Vec<String>)
    ensures
        lines.deep_view() == error_lines(contents@),
{
    let text = chars_of(contents);
    let messages = messages_in(&text);
    let mut lines: Vec<String> = Vec::new();
    let mut i: usize = 0;
    while i < messages.len()
        invariant
            0 <= i <= messages.len(),
            lines.deep_view() == rows(messages@).take(i as int),
        decreases messages.len() - i,
    {
        let ghost before = lines.deep_view();
        lines.push(string_of(&messages[i]));
        assert(lines.deep_view() =~= before.push(rows(messages@)[i as int]));
        assert(rows(messages@).take(i + 1) =~= rows(messages@).take(i as int).push(
            rows(messages@)[i as int],
        ));
        i += 1;
    }
    assert(rows(messages@).take(messages.len() as int) =~= rows(messages@));
    lines
}

/// The canonical errors of a log, in ascending order, each once.
///
/// Every error line of the log is brought into canonical form; the result
/// holds exactly these forms. It is empty if the log reports no error.
pub fn process_regression_file(contents: &str) -> (errors: Vec<String>)
    ensures
        strictly_sorted(errors.deep_view()),
        errors.deep_view().to_set() == error_keys(contents@),
{
    let text = chars_of(contents);
    let messages = messages_in(&text);
    let mut errors: Vec<String> = Vec::new();
    let mut i: usize = 0;
    assert(errors.deep_view().to_set() =~= keys_of(rows(messages@).take(0)));
    while i < messages.len()
        invariant
            0 <= i <= messages.len(),
            strictly_sorted(errors.deep_view()),
            errors.deep_view().to_set() == keys_of(rows(messages@).take(i as int)),
        decreases messages.len() - i,
    {
        let key = string_of(&canonical_chars(&messages[i]));
        insert_sorted(&mut errors, key);
        proof {
            let all = rows(messages@);
            assert(all.take(i + 1) =~= all.take(i as int).push(all[i as int]));
            keys_of_push(all.take(i as int), all[i as int]);
        }
        i += 1;
    }
    assert(rows(messages@).take(messages.len() as int) =~= rows(messages@));
    errors
}

} // verus!
