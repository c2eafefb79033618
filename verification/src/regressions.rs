//! The regression logs that were found, one for each package.

use vstd::prelude::*;
use crate::package::{
    compare_crates, crate_lt, crate_lt_asymmetric, crate_lt_transitive, Crate, CrateId,
};
use crate::text::{Order, Text};

verus! {

/// Where the log of a package comes from: the label of the run, then the
/// path of the file.
pub type Source = (Text, Text);

/// The log that was found for a package.
#[derive(Debug, PartialEq, Eq)]
pub struct Regression {
    pub krate: Crate,
    pub run: String,
    pub path: String,
}

impl View for Regression {
    type V = (CrateId, Source);

    /// The package, then the run and the path of its log.
    open spec fn view(&self) -> (CrateId, Source) {
        (self.krate@, (self.run@, self.path@))
    }
}

impl DeepView for Regression {
    type V = (CrateId, Source);

    open spec fn deep_view(&self) -> (CrateId, Source) {
        self@
    }
}

impl Clone for Regression {
    fn clone(&self) -> (r: Self)
        ensures
            r@ == self@,
    {
        Regression { krate: self.krate.clone(), run: self.run.clone(), path: self.path.clone() }
    }
}

/// Entries as a regression map holds them: the packages ascend, and none
/// occurs twice.
pub open spec fn well_formed(entries: Seq<(CrateId, Source)>) -> bool {
    forall|i: int, j: int|
        0 <= i < j < entries.len() ==> crate_lt(
            (#[trigger] entries[i]).0,
            (#[trigger] entries[j]).0,
        )
}

/// Whether some entry is about the package.
pub open spec fn has_entry(entries: Seq<(CrateId, Source)>, key: CrateId) -> bool {
    exists|i: int| 0 <= i < entries.len() && (#[trigger] entries[i]).0 == key
}

/// The place of an entry about the package.
pub open spec fn entry_of(entries: Seq<(CrateId, Source)>, key: CrateId) -> int {
    choose|i: int| 0 <= i < entries.len() && (#[trigger] entries[i]).0 == key
}

/// The entries as a map from each package to the source of its log.
pub open spec fn as_map(entries: Seq<(CrateId, Source)>) -> Map<CrateId, Source> {
    Map::new(
        |key: CrateId| has_entry(entries, key),
        |key: CrateId| entries[entry_of(entries, key)].1,
    )
}

/// Where a package stands among `entries`, or where it would have to be put.
pub open spec fn placed(entries: Seq<(CrateId, Source)>, key: CrateId, at: int, found: bool) -> bool {
    &&& 0 <= at <= entries.len()
    &&& forall|i: int| 0 <= i < at ==> crate_lt((#[trigger] entries[i]).0, key)
    &&& found ==> at < entries.len() && entries[at].0 == key
    &&& forall|i: int|
        at <= i < entries.len() && !(found && i == at) ==> crate_lt(key, (#[trigger] entries[i]).0)
}

/// In well-formed entries a package maps to the source of the one entry that
/// is about it.
pub proof fn as_map_of_entry(entries: Seq<(CrateId, Source)>, i: int)
    requires
        well_formed(entries),
        0 <= i < entries.len(),
    ensures
        as_map(entries).contains_key(entries[i].0),
        as_map(entries)[entries[i].0] == entries[i].1,
{
    let key = entries[i].0;
    assert(has_entry(entries, key));
    let j = entry_of(entries, key);
    if i < j {
        crate_lt_asymmetric(entries[i].0, entries[j].0);
    } else if j < i {
        crate_lt_asymmetric(entries[j].0, entries[i].0);
    }
}

/// A package has an entry only where it is placed.
pub proof fn placed_decides_membership(
    entries: Seq<(CrateId, Source)>,
    key: CrateId,
    at: int,
    found: bool,
)
    requires
        placed(entries, key, at, found),
    ensures
        found <==> has_entry(entries, key),
{
    assert forall|i: int| 0 <= i < entries.len() && (#[trigger] entries[i]).0 == key implies found
        && i == at by {
        if i < at {
            crate_lt_asymmetric(entries[i].0, key);
        } else if !(found && i == at) {
            crate_lt_asymmetric(key, entries[i].0);
        }
    }
    if found {
        assert(entries[at].0 == key);
    }
}

/// Well-formed entries that map the same packages to the same sources are the
/// same entries in the same order: a regression map is held in exactly one
/// way.
pub proof fn entries_by_content(a: Seq<(CrateId, Source)>, b: Seq<(CrateId, Source)>)
    requires
        well_formed(a),
        well_formed(b),
        as_map(a) == as_map(b),
    ensures
        a == b,
    decreases a.len(),
{
    if a.len() == 0 {
        if b.len() > 0 {
            as_map_of_entry(b, 0);
            assert(has_entry(a, b[0].0));
        }
        assert(a =~= b);
    } else if b.len() == 0 {
        as_map_of_entry(a, 0);
        assert(has_entry(b, a[0].0));
    } else {
        let x = a.last();
        let y = b.last();
        as_map_of_entry(a, a.len() - 1);
        as_map_of_entry(b, b.len() - 1);
        assert(has_entry(b, x.0));
        assert(has_entry(a, y.0));
        let i = entry_of(b, x.0);
        let j = entry_of(a, y.0);
        as_map_of_entry(b, i);
        as_map_of_entry(a, j);
        if i < b.len() - 1 {
            assert(crate_lt(x.0, y.0));
            if j < a.len() - 1 {
                assert(crate_lt(y.0, x.0));
            }
            crate_lt_asymmetric(x.0, y.0);
        }
        if j < a.len() - 1 {
            assert(crate_lt(y.0, x.0));
            crate_lt_asymmetric(y.0, x.0);
        }
        assert(x == y);
        let a0 = a.drop_last();
        let b0 = b.drop_last();
        assert forall|key: CrateId| has_entry(a0, key) implies has_entry(b0, key) && as_map(
            b0,
        )[key] == as_map(a0)[key] by {
            let n = entry_of(a0, key);
            assert(a[n].0 == key);
            crate_lt_asymmetric(key, x.0);
            as_map_of_entry(a, n);
            as_map_of_entry(a0, n);
            assert(has_entry(b, key));
            let m = entry_of(b, key);
            as_map_of_entry(b, m);
            assert(b0[m].0 == key);
            as_map_of_entry(b0, m);
        }
        assert forall|key: CrateId| has_entry(b0, key) implies has_entry(a0, key) by {
            let n = entry_of(b0, key);
            assert(b[n].0 == key);
            crate_lt_asymmetric(key, y.0);
            as_map_of_entry(b, n);
            assert(has_entry(a, key));
            let m = entry_of(a, key);
            assert(a0[m].0 == key);
        }
        assert(as_map(a0) =~= as_map(b0));
        entries_by_content(a0, b0);
        assert(a =~= a0.push(x));
        assert(b =~= b0.push(y));
    }
}

/// Putting an entry where its package is placed changes the map as putting
/// the package into the map does; an entry that was there is replaced.
pub proof fn as_map_after_put(
    entries: Seq<(CrateId, Source)>,
    key: CrateId,
    source: Source,
    at: int,
    found: bool,
)
    requires
        well_formed(entries),
        placed(entries, key, at, found),
    ensures
        ({
            let put = if found {
                entries.update(at, (key, source))
            } else {
                entries.insert(at, (key, source))
            };
            &&& well_formed(put)
            &&& as_map(put) == as_map(entries).insert(key, source)
        }),
{
    let put = if found {
        entries.update(at, (key, source))
    } else {
        entries.insert(at, (key, source))
    };
    assert forall|i: int, j: int| 0 <= i < j < put.len() implies crate_lt(
        (#[trigger] put[i]).0,
        (#[trigger] put[j]).0,
    ) by {
        if found {
            if i != at {
                assert(put[i] == entries[i]);
            }
            if j != at {
                assert(put[j] == entries[j]);
            }
            assert(crate_lt(entries[i].0, entries[j].0));
        } else {
            let bi = if i < at { i } else { i - 1 };
            let bj = if j < at { j } else { j - 1 };
            if i != at {
                assert(put[i] == entries[bi]);
            }
            if j != at {
                assert(put[j] == entries[bj]);
            }
            if i != at && j != at {
                assert(crate_lt(entries[bi].0, entries[bj].0));
            }
        }
    }
    assert(put[at] == (key, source));
    as_map_of_entry(put, at);
    let wanted = as_map(entries).insert(key, source);
    assert forall|k: CrateId| as_map(put).contains_key(k) <==> wanted.contains_key(k) by {
        if has_entry(put, k) && k != key {
            let n = entry_of(put, k);
            let i = if found || n < at { n } else { n - 1 };
            assert(entries[i].0 == k);
        }
        if has_entry(entries, k) && k != key {
            let i = entry_of(entries, k);
            let n = if found || i < at { i } else { i + 1 };
            assert(put[n].0 == k);
        }
    }
    assert forall|k: CrateId| as_map(put).contains_key(k) implies as_map(put)[k] == wanted[k] by {
        if k != key {
            let n = entry_of(put, k);
            let i = if found || n < at { n } else { n - 1 };
            assert(entries[i] == put[n]);
            as_map_of_entry(put, n);
            as_map_of_entry(entries, i);
        }
    }
    assert(as_map(put) =~= wanted);
}

/// Finds the entry of a package by bisection.
fn place(entries: &Vec<Regression>, key: &Crate) -> (r: (usize, bool))
    requires
        well_formed(entries.deep_view()),
    ensures
        placed(entries.deep_view(), key@, r.0 as int, r.1),
{
    let ghost s = entries.deep_view();
    let mut lo: usize = 0;
    let mut hi: usize = entries.len();
    while lo < hi
        invariant
            0 <= lo <= hi <= entries.len(),
            s == entries.deep_view(),
            well_formed(s),
            forall|i: int| 0 <= i < lo ==> crate_lt((#[trigger] s[i]).0, key@),
            forall|i: int| hi <= i < s.len() ==> crate_lt(key@, (#[trigger] s[i]).0),
        decreases hi - lo,
    {
        let mid: usize = lo + (hi - lo) / 2;
        assert(s[mid as int].0 == entries@[mid as int].krate@);
        match compare_crates(&entries[mid].krate, key) {
            Order::Less => {
                assert forall|i: int| 0 <= i < mid + 1 implies crate_lt(
                    (#[trigger] s[i]).0,
                    key@,
                ) by {
                    if i < mid {
                        crate_lt_transitive(s[i].0, s[mid as int].0, key@);
                    }
                }
                lo = mid + 1;
            },
            Order::Greater => {
                assert forall|i: int| mid <= i < s.len() implies crate_lt(
                    key@,
                    (#[trigger] s[i]).0,
                ) by {
                    if mid < i {
                        crate_lt_transitive(key@, s[mid as int].0, s[i].0);
                    }
                }
                hi = mid;
            },
            Order::Equal => {
                assert forall|i: int| 0 <= i < mid implies crate_lt((#[trigger] s[i]).0, key@) by {
                    assert(crate_lt(s[i].0, s[mid as int].0));
                }
                assert forall|i: int| mid < i < s.len() implies crate_lt(
                    key@,
                    (#[trigger] s[i]).0,
                ) by {
                    assert(crate_lt(s[mid as int].0, s[i].0));
                }
                return (mid, true);
            },
        }
    }
    (lo, false)
}

/// Puts an entry into sorted entries; an entry about the same package is
/// replaced.
fn put(entries: &mut Vec<Regression>, entry: Regression)
    requires
        well_formed(old(entries).deep_view()),
    ensures
        well_formed(final(entries).deep_view()),
        as_map(final(entries).deep_view()) == as_map(old(entries).deep_view()).insert(
            entry@.0,
            entry@.1,
        ),
{
    let ghost before = entries.deep_view();
    let (at, found) = place(entries, &entry.krate);
    proof {
        as_map_after_put(before, entry@.0, entry@.1, at as int, found);
    }
    if found {
        entries[at] = entry;
        assert(entries.deep_view() =~= before.update(at as int, entry@));
    } else {
        entries.insert(at, entry);
        assert(entries.deep_view() =~= before.insert(at as int, entry@));
    }
}

/// The regression logs that were found: for each package at most one, in
/// ascending order of the packages.
#[derive(Debug, PartialEq, Eq)]
pub struct RegressionMap {
    entries: Vec<Regression>,
}

impl View for RegressionMap {
    type V = Seq<(CrateId, Source)>;

    /// The entries, in the order in which the map lists them.
    closed spec fn view(&self) -> Seq<(CrateId, Source)> {
        self.entries.deep_view()
    }
}

impl RegressionMap {
    #[verifier::type_invariant]
    spec fn inv(&self) -> bool {
        well_formed(self.entries.deep_view())
    }

    /// The map without any package.
    pub fn new() -> (m: RegressionMap)
        ensures
            m@ == Seq::<(CrateId, Source)>::empty(),
    {
        let m = RegressionMap { entries: Vec::new() };
        assert(m.entries.deep_view() =~= Seq::empty());
        m
    }

    /// The entries, in ascending order of their packages.
    pub fn entries(&self) -> (e: &Vec<Regression>)
        ensures
            e.deep_view() == self@,
            well_formed(self@),
    {
        proof {
            use_type_invariant(self);
        }
        &self.entries
    }

    /// Records the log of a package. A log recorded earlier for the same
    /// package is forgotten.
    pub fn insert(&mut self, krate: Crate, run: String, path: String)
        ensures
            well_formed(final(self)@),
            as_map(final(self)@) == as_map(old(self)@).insert(krate@, (run@, path@)),
    {
        proof {
            use_type_invariant(&*self);
        }
        let mut entries: Vec<Regression> = Vec::new();
        assert(entries.deep_view() =~= Seq::empty());
        core::mem::swap(&mut self.entries, &mut entries);
        put(&mut entries, Regression { krate, run, path });
        self.entries = entries;
    }

    /// Records all the logs of `other`. Where both maps have a log for a
    /// package, that of `other` stays.
    pub fn extend(&mut self, other: RegressionMap)
        ensures
            well_formed(final(self)@),
            as_map(final(self)@) == as_map(old(self)@).union_prefer_right(as_map(other@)),
    {
        proof {
            use_type_invariant(&*self);
            use_type_invariant(&other);
        }
        let ghost before = self@;
        let ghost added = other@;
        let mut entries: Vec<Regression> = Vec::new();
        assert(entries.deep_view() =~= Seq::empty());
        core::mem::swap(&mut self.entries, &mut entries);
        let mut i: usize = 0;
        assert(as_map(before).union_prefer_right(as_map(added.take(0))) =~= as_map(before));
        while i < other.entries.len()
            invariant
                0 <= i <= other.entries.len(),
                added == other.entries.deep_view(),
                well_formed(added),
                well_formed(entries.deep_view()),
                as_map(entries.deep_view()) == as_map(before).union_prefer_right(
                    as_map(added.take(i as int)),
                ),
            decreases other.entries.len() - i,
        {
            put(&mut entries, other.entries[i].clone());
            proof {
                let seen = added.take(i as int);
                let e = added[i as int];
                assert(added.take(i + 1) =~= seen.insert(i as int, e));
                assert(placed(seen, e.0, i as int, false));
                as_map_after_put(seen, e.0, e.1, i as int, false);
                assert(as_map(before).union_prefer_right(as_map(seen)).insert(e.0, e.1) =~= as_map(
                    before,
                ).union_prefer_right(as_map(seen).insert(e.0, e.1)));
            }
            i += 1;
        }
        assert(added.take(other.entries.len() as int) =~= added);
        self.entries = entries;
    }
}

} // verus!
