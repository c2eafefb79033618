//! The errors of a set of logs, each with the packages that show it.

use vstd::prelude::*;
use crate::filter::{error_keys, process_regression_file};
use crate::package::{Crate, CrateId};
use crate::regressions::{RegressionMap, Source};
use crate::sorted::{located, located_decides_membership, sorted_by_content, strictly_sorted};
use crate::text::{compare, text_lt, text_lt_asymmetric, text_lt_transitive, Order, Text};

verus! {

/// A package that shows an error, as contracts speak of it: the label of the
/// run, then the name and the version of the package.
pub type Hit = (Text, CrateId);

/// Errors with their packages, as contracts speak of them.
pub type Groups = Seq<(Text, Seq<Hit>)>;

/// A package that shows an error, with the run in which it did.
#[derive(Debug, PartialEq, Eq)]
pub struct Regressed {
    pub run: String,
    pub krate: Crate,
}

impl View for Regressed {
    type V = Hit;

    open spec fn view(&self) -> Hit {
        (self.run@, self.krate@)
    }
}

impl DeepView for Regressed {
    type V = Hit;

    open spec fn deep_view(&self) -> Hit {
        self@
    }
}

impl Clone for Regressed {
    fn clone(&self) -> (r: Self)
        ensures
            r@ == self@,
    {
        Regressed { run: self.run.clone(), krate: self.krate.clone() }
    }
}

/// An error with the packages that show it, in the order in which their
/// logs were read.
#[derive(Debug, PartialEq, Eq)]
pub struct ErrorGroup {
    pub error: String,
    pub crates: Vec<Regressed>,
}

impl View for ErrorGroup {
    type V = (Text, Seq<Hit>);

    open spec fn view(&self) -> (Text, Seq<Hit>) {
        (self.error@, self.crates.deep_view())
    }
}

impl DeepView for ErrorGroup {
    type V = (Text, Seq<Hit>);

    open spec fn deep_view(&self) -> (Text, Seq<Hit>) {
        self@
    }
}

/// The errors of `groups`, in their order.
pub open spec fn keys(groups: Groups) -> Seq<Text> {
    groups.map_values(|g: (Text, Seq<Hit>)| g.0)
}

/// Groups as an error map holds them: the errors ascend, none occurs twice,
/// and every error has a package.
pub open spec fn well_formed(groups: Groups) -> bool {
    &&& strictly_sorted(keys(groups))
    &&& forall|i: int| 0 <= i < groups.len() ==> (#[trigger] groups[i]).1.len() > 0
}

/// The packages that `groups` has for an error: those of its group, or none
/// where the error has no group.
pub open spec fn hits(groups: Groups, key: Text) -> Seq<Hit> {
    if has_group(groups, key) {
        groups[group_of(groups, key)].1
    } else {
        Seq::empty()
    }
}

/// Whether some group names the error.
pub open spec fn has_group(groups: Groups, key: Text) -> bool {
    exists|i: int| 0 <= i < groups.len() && (#[trigger] groups[i]).0 == key
}

/// The place of a group that names the error.
pub open spec fn group_of(groups: Groups, key: Text) -> int {
    choose|i: int| 0 <= i < groups.len() && (#[trigger] groups[i]).0 == key
}

/// In well-formed groups an error has the packages of the one group that
/// names it.
pub proof fn hits_of_group(groups: Groups, i: int)
    requires
        well_formed(groups),
        0 <= i < groups.len(),
    ensures
        hits(groups, groups[i].0) == groups[i].1,
        hits(groups, groups[i].0).len() > 0,
{
    let key = groups[i].0;
    assert(has_group(groups, key));
    let j = group_of(groups, key);
    assert(keys(groups)[i] == key && keys(groups)[j] == key);
    if i < j {
        text_lt_asymmetric(keys(groups)[i], keys(groups)[j]);
    } else if j < i {
        text_lt_asymmetric(keys(groups)[j], keys(groups)[i]);
    }
}

/// An error has packages exactly when it has a group.
pub proof fn hits_decide_membership(groups: Groups, key: Text)
    requires
        well_formed(groups),
    ensures
        hits(groups, key).len() > 0 <==> keys(groups).contains(key),
{
    if keys(groups).contains(key) {
        let i = choose|i: int| 0 <= i < keys(groups).len() && keys(groups)[i] == key;
        assert(groups[i].0 == key);
        hits_of_group(groups, i);
    }
    if has_group(groups, key) {
        let i = group_of(groups, key);
        assert(keys(groups)[i] == key);
    }
}

/// Well-formed groups that have the same packages for every error are the
/// same groups in the same order: an error map is held in exactly one way.
pub proof fn groups_by_content(a: Groups, b: Groups)
    requires
        well_formed(a),
        well_formed(b),
        forall|key: Text| hits(a, key) == hits(b, key),
    ensures
        a == b,
{
    assert forall|key: Text| keys(a).to_set().contains(key) <==> keys(b).to_set().contains(
        key,
    ) by {
        hits_decide_membership(a, key);
        hits_decide_membership(b, key);
    }
    assert(keys(a).to_set() =~= keys(b).to_set());
    sorted_by_content(keys(a), keys(b));
    assert(a.len() == keys(a).len() && b.len() == keys(b).len());
    assert forall|i: int| 0 <= i < a.len() implies a[i] == b[i] by {
        assert(keys(a)[i] == a[i].0 && keys(b)[i] == b[i].0);
        hits_of_group(a, i);
        hits_of_group(b, i);
    }
    assert(a =~= b);
}

/// One more package for the error of the group at `at`.
proof fn hits_after_push(groups: Groups, at: int, hit: Hit)
    requires
        well_formed(groups),
        0 <= at < groups.len(),
    ensures
        ({
            let grown = groups.update(at, (groups[at].0, groups[at].1.push(hit)));
            &&& well_formed(grown)
            &&& forall|key: Text|
                hits(grown, key) == if key == groups[at].0 {
                    hits(groups, key).push(hit)
                } else {
                    hits(groups, key)
                }
        }),
{
    let grown = groups.update(at, (groups[at].0, groups[at].1.push(hit)));
    assert(keys(grown) =~= keys(groups));
    assert(well_formed(grown));
    assert forall|key: Text|
        hits(grown, key) == if key == groups[at].0 {
            hits(groups, key).push(hit)
        } else {
            hits(groups, key)
        } by {
        hits_decide_membership(groups, key);
        hits_decide_membership(grown, key);
        if keys(groups).contains(key) {
            let i = choose|i: int| 0 <= i < keys(groups).len() && keys(groups)[i] == key;
            assert(groups[i].0 == key && grown[i].0 == key);
            hits_of_group(groups, i);
            hits_of_group(grown, i);
            hits_of_group(groups, at);
            if i != at && key == groups[at].0 {
                assert(keys(groups)[at] == key);
                if i < at {
                    text_lt_asymmetric(keys(groups)[i], keys(groups)[at]);
                } else {
                    text_lt_asymmetric(keys(groups)[at], keys(groups)[i]);
                }
            }
        } else {
            assert(keys(groups)[at] == groups[at].0);
        }
    }
}

/// A new group for an error that had none, put where it belongs.
proof fn hits_after_insert(groups: Groups, at: int, error: Text, hit: Hit)
    requires
        well_formed(groups),
        located(keys(groups), error, at, false),
    ensures
        ({
            let grown = groups.insert(at, (error, seq![hit]));
            &&& well_formed(grown)
            &&& hits(groups, error) == Seq::<Hit>::empty()
            &&& forall|key: Text|
                hits(grown, key) == if key == error {
                    hits(groups, key).push(hit)
                } else {
                    hits(groups, key)
                }
        }),
{
    let grown = groups.insert(at, (error, seq![hit]));
    let old_keys = keys(groups);
    let new_keys = keys(grown);
    located_decides_membership(old_keys, error, at, false);
    hits_decide_membership(groups, error);
    assert(new_keys =~= old_keys.insert(at, error));
    assert forall|i: int, j: int| 0 <= i < j < new_keys.len() implies text_lt(
        new_keys[i],
        new_keys[j],
    ) by {
        let bi = if i < at { i } else { i - 1 };
        let bj = if j < at { j } else { j - 1 };
        if i != at && j != at {
            assert(text_lt(old_keys[bi], old_keys[bj]));
        } else if i == at {
            assert(text_lt(error, old_keys[bj]));
        } else {
            assert(text_lt(old_keys[bi], error));
        }
    }
    assert forall|i: int| 0 <= i < grown.len() implies (#[trigger] grown[i]).1.len() > 0 by {
        if i < at {
            assert(grown[i] == groups[i]);
        } else if i > at {
            assert(grown[i] == groups[i - 1]);
        }
    }
    assert(well_formed(grown));
    assert(seq![hit] =~= Seq::<Hit>::empty().push(hit));
    assert forall|key: Text|
        hits(grown, key) == if key == error {
            hits(groups, key).push(hit)
        } else {
            hits(groups, key)
        } by {
        hits_decide_membership(groups, key);
        hits_decide_membership(grown, key);
        if key == error {
            assert(grown[at].0 == key);
            hits_of_group(grown, at);
        } else if keys(groups).contains(key) {
            let i = choose|i: int| 0 <= i < old_keys.len() && old_keys[i] == key;
            let n = if i < at { i } else { i + 1 };
            assert(groups[i].0 == key);
            assert(grown[n] == groups[i]);
            hits_of_group(groups, i);
            hits_of_group(grown, n);
        } else {
            if new_keys.contains(key) {
                let n = choose|n: int| 0 <= n < new_keys.len() && new_keys[n] == key;
                let i = if n < at { n } else { n - 1 };
                assert(old_keys[i] == key);
            }
        }
    }
}

/// Finds the group of an error by bisection.
fn locate(groups: &Vec<ErrorGroup>, key: &str) -> (r: (usize, bool))
    requires
        strictly_sorted(keys(groups.deep_view())),
    ensures
        located(keys(groups.deep_view()), key@, r.0 as int, r.1),
{
    let ghost s = keys(groups.deep_view());
    let mut lo: usize = 0;
    let mut hi: usize = groups.len();
    while lo < hi
        invariant
            0 <= lo <= hi <= groups.len(),
            s == keys(groups.deep_view()),
            strictly_sorted(s),
            forall|i: int| 0 <= i < lo ==> text_lt(#[trigger] s[i], key@),
            forall|i: int| hi <= i < s.len() ==> text_lt(key@, #[trigger] s[i]),
        decreases hi - lo,
    {
        let mid: usize = lo + (hi - lo) / 2;
        assert(s[mid as int] == groups@[mid as int].error@);
        match compare(groups[mid].error.as_str(), key) {
            Order::Less => {
                assert forall|i: int| 0 <= i < mid + 1 implies text_lt(#[trigger] s[i], key@) by {
                    if i < mid {
                        text_lt_transitive(s[i], s[mid as int], key@);
                    }
                }
                lo = mid + 1;
            },
            Order::Greater => {
                assert forall|i: int| mid <= i < s.len() implies text_lt(key@, #[trigger] s[i]) by {
                    if mid < i {
                        text_lt_transitive(key@, s[mid as int], s[i]);
                    }
                }
                hi = mid;
            },
            Order::Equal => {
                assert forall|i: int| 0 <= i < mid implies text_lt(#[trigger] s[i], key@) by {}
                assert forall|i: int| mid < i < s.len() implies text_lt(key@, #[trigger] s[i]) by {}
                return (mid, true);
            },
        }
    }
    (lo, false)
}

/// Adds a package to the group of an error, which is made if need be.
fn add_hit(groups: &mut Vec<ErrorGroup>, error: String, hit: Regressed)
    requires
        well_formed(old(groups).deep_view()),
    ensures
        well_formed(final(groups).deep_view()),
        forall|key: Text|
            hits(final(groups).deep_view(), key) == if key == error@ {
                hits(old(groups).deep_view(), key).push(hit@)
            } else {
                hits(old(groups).deep_view(), key)
            },
{
    let ghost before = groups.deep_view();
    let (at, found) = locate(groups, error.as_str());
    if found {
        proof {
            assert(keys(before)[at as int] == before[at as int].0);
            hits_after_push(before, at as int, hit@);
        }
        let ghost pushed = groups@[at as int].crates.deep_view().push(hit@);
        groups[at].crates.push(hit);
        assert(groups@[at as int].crates.deep_view() =~= pushed);
        assert(groups.deep_view() =~= before.update(
            at as int,
            (before[at as int].0, before[at as int].1.push(hit@)),
        ));
    } else {
        proof {
            hits_after_insert(before, at as int, error@, hit@);
        }
        let mut crates: Vec<Regressed> = Vec::new();
        crates.push(hit);
        assert(crates.deep_view() =~= seq![hit@]);
        groups.insert(at, ErrorGroup { error, crates });
        assert(groups.deep_view() =~= before.insert(at as int, (error@, seq![hit@])));
    }
}

/// The errors found in a set of logs, in ascending order, each with the
/// packages that show it.
#[derive(Debug, PartialEq, Eq)]
pub struct ErrorMap {
    groups: Vec<ErrorGroup>,
}

impl View for ErrorMap {
    type V = Groups;

    /// The groups, in the order in which the map lists them.
    closed spec fn view(&self) -> Groups {
        self.groups.deep_view()
    }
}

impl ErrorMap {
    #[verifier::type_invariant]
    spec fn inv(&self) -> bool {
        well_formed(self.groups.deep_view())
    }

    /// The map without any error.
    pub fn new() -> (m: ErrorMap)
        ensures
            m@ == Seq::<(Text, Seq<Hit>)>::empty(),
    {
        let m = ErrorMap { groups: Vec::new() };
        assert(m.groups.deep_view() =~= Seq::empty());
        m
    }

    /// The groups, in ascending order of their errors.
    pub fn groups(&self) -> (g: &Vec<ErrorGroup>)
        ensures
            g.deep_view() == self@,
            well_formed(self@),
    {
        proof {
            use_type_invariant(self);
        }
        &self.groups
    }

    /// Takes the log of one package into account.
    ///
    /// The package is added, with the label of its run, to the group of every
    /// error that its log shows: once for each error, however often the log
    /// repeats it, and after the packages that the group already has. A log
    /// without an error changes nothing.
    pub fn record(&mut self, run: &str, krate: &Crate, contents: &str)
        ensures
            well_formed(final(self)@),
            forall|key: Text|
                hits(final(self)@, key) == if error_keys(contents@).contains(key) {
                    hits(old(self)@, key).push((run@, krate@))
                } else {
                    hits(old(self)@, key)
                },
    {
        proof {
            use_type_invariant(&*self);
        }
        let ghost before = self@;
        let ghost hit = (run@, krate@);
        let errors = process_regression_file(contents);
        let ghost found = errors.deep_view();
        let mut groups: Vec<ErrorGroup> = Vec::new();
        assert(groups.deep_view() =~= Seq::empty());
        core::mem::swap(&mut self.groups, &mut groups);
        let mut i: usize = 0;
        while i < errors.len()
            invariant
                0 <= i <= errors.len(),
                found == errors.deep_view(),
                strictly_sorted(found),
                well_formed(before),
                well_formed(groups.deep_view()),
                hit == (run@, krate@),
                forall|key: Text|
                    hits(groups.deep_view(), key) == if found.take(i as int).contains(key) {
                        hits(before, key).push(hit)
                    } else {
                        hits(before, key)
                    },
            decreases errors.len() - i,
        {
            let ghost so_far = groups.deep_view();
            let error = errors[i].clone();
            let entry = Regressed { run: run.to_owned(), krate: krate.clone() };
            add_hit(&mut groups, error, entry);
            proof {
                let e = found[i as int];
                let seen = found.take(i as int);
                let grown = found.take(i + 1);
                assert(!seen.contains(e)) by {
                    if seen.contains(e) {
                        let j = choose|j: int| 0 <= j < seen.len() && seen[j] == e;
                        text_lt_asymmetric(found[j], found[i as int]);
                    }
                }
                assert(grown =~= seen.push(e));
                assert forall|key: Text|
                    hits(groups.deep_view(), key) == if grown.contains(key) {
                        hits(before, key).push(hit)
                    } else {
                        hits(before, key)
                    } by {
                    if key == e {
                        assert(grown[i as int] == e);
                    } else if seen.contains(key) {
                        let j = choose|j: int| 0 <= j < seen.len() && seen[j] == key;
                        assert(grown[j] == key);
                    } else if grown.contains(key) {
                        let j = choose|j: int| 0 <= j < grown.len() && grown[j] == key;
                        assert(seen[j] == key);
                    }
                }
            }
            i += 1;
        }
        proof {
            assert(found.take(errors.len() as int) =~= found);
            assert forall|key: Text| found.contains(key) <==> error_keys(contents@).contains(
                key,
            ) by {}
        }
        self.groups = groups;
    }
}

/// The logs of the packages of `entries`, where `texts` holds the text of the
/// log of each entry at the place of the entry: each log with the run and the
/// package that it belongs to.
pub open spec fn logs_of(entries: Seq<(CrateId, Source)>, texts: Seq<Text>) -> Seq<(Hit, Text)> {
    Seq::new(entries.len(), |i: int| ((entries[i].1.0, entries[i].0), texts[i]))
}

/// The packages among `logs` whose log shows the error, in the order of the
/// logs.
pub open spec fn hits_in(logs: Seq<(Hit, Text)>, key: Text) -> Seq<Hit> {
    logs.filter(|log: (Hit, Text)| error_keys(log.1).contains(key)).map_values(
        |log: (Hit, Text)| log.0,
    )
}

/// One more log, taken into account.
proof fn hits_in_push(logs: Seq<(Hit, Text)>, log: (Hit, Text), key: Text)
    ensures
        hits_in(logs.push(log), key) == if error_keys(log.1).contains(key) {
            hits_in(logs, key).push(log.0)
        } else {
            hits_in(logs, key)
        },
{
    let pred = |log: (Hit, Text)| error_keys(log.1).contains(key);
    logs.lemma_filter_push(log, pred);
    if error_keys(log.1).contains(key) {
        assert(hits_in(logs.push(log), key) =~= hits_in(logs, key).push(log.0));
    }
}

/// The logs decide the map: well-formed groups that have, for every error,
/// the packages whose log shows it are the same groups in the same order.
pub proof fn groups_of_logs_are_unique(logs: Seq<(Hit, Text)>, a: Groups, b: Groups)
    requires
        well_formed(a),
        well_formed(b),
        forall|key: Text| hits(a, key) == hits_in(logs, key),
        forall|key: Text| hits(b, key) == hits_in(logs, key),
    ensures
        a == b,
{
    groups_by_content(a, b);
}

/// A package for which no log was read.
#[derive(Debug, PartialEq, Eq)]
pub struct MissingLog {
    pub krate: Crate,
    pub path: String,
}

impl View for MissingLog {
    type V = (CrateId, Text);

    /// The package, then the path of its log.
    open spec fn view(&self) -> (CrateId, Text) {
        (self.krate@, self.path@)
    }
}

/// Groups the packages by the errors that their logs show.
///
/// `logs` holds the text of the log of each entry of `regressions`, at the
/// place of the entry. Reading stops at a log that cannot be read: that log
/// and all that follow it are missing from `logs`. Then no map is made, and
/// the first package without a log is reported.
///
/// Otherwise the packages are taken in the order of the map, which is their
/// ascending order. Each error of the result has the packages whose log
/// shows it, each once and in that order; the errors ascend. A log without
/// an error adds nothing.
pub fn collect_errors(regressions: &RegressionMap, logs: &Vec<String>) -> (r: Result<
    ErrorMap,
    MissingLog,
>)
    ensures
        match r {
            Ok(errors) => {
                &&& logs.len() >= regressions@.len()
                &&& well_formed(errors@)
                &&& forall|key: Text|
                    hits(errors@, key) == hits_in(logs_of(regressions@, logs.deep_view()), key)
            },
            Err(missing) => {
                &&& logs.len() < regressions@.len()
                &&& missing@ == (
                    regressions@[logs.len() as int].0,
                    regressions@[logs.len() as int].1.1,
                )
            },
        },
{
    let entries = regressions.entries();
    if logs.len() < entries.len() {
        let first = &entries[logs.len()];
        return Err(MissingLog { krate: first.krate.clone(), path: first.path.clone() });
    }
    let mut errors = ErrorMap::new();
    let ghost all = logs_of(regressions@, logs.deep_view());
    let mut i: usize = 0;
    proof {
        assert forall|key: Text| hits(errors@, key) == hits_in(all.take(0), key) by {
            reveal(Seq::filter);
            assert(hits_in(all.take(0), key) =~= Seq::empty());
        }
    }
    while i < entries.len()
        invariant
            0 <= i <= entries.len(),
            entries.len() <= logs.len(),
            entries.deep_view() == regressions@,
            all == logs_of(regressions@, logs.deep_view()),
            well_formed(errors@),
            forall|key: Text| hits(errors@, key) == hits_in(all.take(i as int), key),
        decreases entries.len() - i,
    {
        let entry = &entries[i];
        errors.record(entry.run.as_str(), &entry.krate, logs[i].as_str());
        proof {
            assert(all[i as int] == ((entry.run@, entry.krate@), logs@[i as int]@));
            assert(all.take(i + 1) =~= all.take(i as int).push(all[i as int]));
            assert forall|key: Text| hits(errors@, key) == hits_in(all.take(i + 1), key) by {
                hits_in_push(all.take(i as int), all[i as int], key);
            }
        }
        i += 1;
    }
    assert(all.take(entries.len() as int) =~= all);
    Ok(errors)
}

} // verus!
