//! The report: the errors as Markdown, each with the packages that show it
//! and a link to the log of each.

use vstd::prelude::*;
use vstd::string::StrSliceExecFns;
use crate::errors::{ErrorGroup, ErrorMap, Groups, Hit, Regressed};
use crate::text::{string_of, Text};

verus! {

/// The digit for a number below ten.
pub open spec fn digit(d: int) -> char {
    "0123456789"@[d]
}

/// A number in decimal notation.
pub open spec fn decimal(n: nat) -> Text
    decreases n,
{
    if n < 10 {
        seq![digit(n as int)]
    } else {
        decimal(n / 10).push(digit((n % 10) as int))
    }
}

/// Whether a version reads like that of a package of the registry: it opens
/// with a digit. Other packages come from a repository, and their version
/// names a revision.
pub open spec fn is_release(version: Text) -> bool {
    version.len() > 0 && '0' <= version[0] <= '9'
}

/// The line of the report for one package: its name and version, and the
/// link to its log.
pub open spec fn link(hit: Hit) -> Text {
    let run = hit.0;
    let name = hit.1.0;
    let version = hit.1.1;
    if is_release(version) {
        "- [`"@ + name + " v"@ + version + "`](https://crater-reports.s3.amazonaws.com/"@ + run
            + "/reg/"@ + name + "-"@ + version + "/log.txt)"@
    } else {
        "- [`"@ + name + "/"@ + version + "`](https://crater-reports.s3.amazonaws.com/"@ + run
            + "/gh/"@ + name + "."@ + version + "/log.txt)"@
    }
}

/// The lines of the packages of a group, each on a line of its own.
pub open spec fn links(hits: Seq<Hit>) -> Text
    decreases hits.len(),
{
    if hits.len() == 0 {
        Seq::empty()
    } else {
        links(hits.drop_last()) + "\n"@ + link(hits.last())
    }
}

/// The section of the report for one error: a heading with the error, the
/// number of its packages, and their lines, folded away.
pub open spec fn section(group: (Text, Seq<Hit>)) -> Text {
    "### "@ + group.0 + "\nNumber of crates regressed: "@ + decimal(group.1.len())
        + "\n<details>\n"@ + links(group.1) + "\n\n</details>"@
}

/// The report: the sections of the groups in their order, with an empty line
/// between two sections.
pub open spec fn report(groups: Groups) -> Text
    decreases groups.len(),
{
    if groups.len() == 0 {
        Seq::empty()
    } else if groups.len() == 1 {
        section(groups[0])
    } else {
        report(groups.drop_last()) + "\n\n"@ + section(groups.last())
    }
}

/// Appends a string.
fn push_str(out: &mut Vec<char>, s: &str)
    ensures
        final(out)@ == old(out)@ + s@,
{
    let ghost before = out@;
    assert(out@ =~= before + s@.take(0));
    for c in it: s.chars()
        invariant
            out@ == before + it.seq().take(it.index() as int),
            it.seq() == s@,
    {
        let ghost n = it.index() as int;
        out.push(c);
        assert(s@.take(n + 1) =~= s@.take(n).push(s@[n]));
        assert(out@ =~= before + s@.take(n + 1));
    }
    assert(s@.take(s@.len() as int) =~= s@);
}

/// Appends a number in decimal notation.
fn push_decimal(out: &mut Vec<char>, n: usize)
    ensures
        final(out)@ == old(out)@ + decimal(n as nat),
    decreases n,
{
    let ghost before = out@;
    if n >= 10 {
        push_decimal(out, n / 10);
    }
    proof {
        reveal_strlit("0123456789");
    }
    let d = "0123456789".get_char(n % 10);
    out.push(d);
    assert(out@ =~= before + decimal(n as nat));
}

/// Whether a version opens with a digit.
fn opens_with_digit(version: &str) -> (b: bool)
    ensures
        b == is_release(version@),
{
    let mut chars = version.chars();
    match chars.next() {
        Some(first) => '0' <= first && first <= '9',
        None => false,
    }
}

/// Appends the line of one package.
fn push_link(out: &mut Vec<char>, hit: &Regressed)
    ensures
        final(out)@ == old(out)@ + link(hit@),
{
    let ghost before = out@;
    let run = hit.run.as_str();
    let name = hit.krate.name.as_str();
    let version = hit.krate.version.as_str();
    if opens_with_digit(version) {
        push_str(out, "- [`");
        push_str(out, name);
        push_str(out, " v");
        push_str(out, version);
        push_str(out, "`](https://crater-reports.s3.amazonaws.com/");
        push_str(out, run);
        push_str(out, "/reg/");
        push_str(out, name);
        push_str(out, "-");
        push_str(out, version);
        push_str(out, "/log.txt)");
    } else {
        push_str(out, "- [`");
        push_str(out, name);
        push_str(out, "/");
        push_str(out, version);
        push_str(out, "`](https://crater-reports.s3.amazonaws.com/");
        push_str(out, run);
        push_str(out, "/gh/");
        push_str(out, name);
        push_str(out, ".");
        push_str(out, version);
        push_str(out, "/log.txt)");
    }
    assert(out@ =~= before + link(hit@));
}

/// Appends the lines of the packages of a group.
fn push_links(out: &mut Vec<char>, crates: &Vec<Regressed>)
    ensures
        final(out)@ == old(out)@ + links(crates.deep_view()),
{
    let ghost before = out@;
    let ghost hits = crates.deep_view();
    let mut j: usize = 0;
    assert(out@ =~= before + links(hits.take(0)));
    while j < crates.len()
        invariant
            0 <= j <= crates.len(),
            hits == crates.deep_view(),
            out@ == before + links(hits.take(j as int)),
        decreases crates.len() - j,
    {
        let ghost so_far = out@;
        assert(hits[j as int] == crates@[j as int]@);
        push_str(out, "\n");
        push_link(out, &crates[j]);
        assert(hits.take(j + 1).drop_last() =~= hits.take(j as int));
        assert(so_far + "\n"@ + link(hits[j as int]) =~= before + (links(hits.take(j as int))
            + "\n"@ + link(hits[j as int])));
        j += 1;
    }
    assert(hits.take(crates.len() as int) =~= hits);
}

/// Appends the section of one error.
fn push_section(out: &mut Vec<char>, group: &ErrorGroup)
    ensures
        final(out)@ == old(out)@ + section(group@),
{
    let ghost before = out@;
    push_str(out, "### ");
    push_str(out, group.error.as_str());
    push_str(out, "\nNumber of crates regressed: ");
    push_decimal(out, group.crates.len());
    push_str(out, "\n<details>\n");
    push_links(out, &group.crates);
    push_str(out, "\n\n</details>");
    assert(out@ =~= before + section(group@));
}

/// Renders the errors as Markdown.
///
/// Each error gets a heading, the number of its packages, and a folded list
/// with one line for each package. The line links to the log of the package:
/// to that of a registry package where the version opens with a digit, to
/// that of a repository otherwise. Two sections are parted by an empty line;
/// a map without errors gives an empty report.
pub fn generate_report(errors: &ErrorMap) -> (text: String)
    ensures
        text@ == report(errors@),
{
    let groups = errors.groups();
    let ghost all = errors@;
    let mut out: Vec<char> = Vec::new();
    let mut i: usize = 0;
    assert(out@ =~= report(all.take(0)));
    while i < groups.len()
        invariant
            0 <= i <= groups.len(),
            all == groups.deep_view(),
            out@ == report(all.take(i as int)),
        decreases groups.len() - i,
    {
        if i > 0 {
            push_str(&mut out, "\n\n");
        }
        assert(all[i as int] == groups@[i as int]@);
        push_section(&mut out, &groups[i]);
        proof {
            assert(all.take(i + 1).drop_last() =~= all.take(i as int));
            if i == 0 {
                assert(all.take(0) =~= Seq::empty());
                assert(all.take(1)[0] == all[0]);
                assert(out@ =~= section(all[0]));
            }
        }
        i += 1;
    }
    assert(all.take(groups.len() as int) =~= all);
    string_of(&out)
}

} // verus!
