//! Tested packages: a package is known by its name and its version.

use vstd::prelude::*;
use crate::text::{
    compare, text_lt, text_lt_asymmetric, text_lt_irreflexive, text_lt_transitive, Order, Text,
};

verus! {

/// A package as contracts speak of it: its name, then its version.
pub type CrateId = (Text, Text);

/// A package build that was tested.
#[derive(Debug, PartialEq, Eq)]
pub struct Crate {
    pub name: String,
    pub version: String,
}

impl View for Crate {
    type V = CrateId;

    open spec fn view(&self) -> CrateId {
        (self.name@, self.version@)
    }
}

impl DeepView for Crate {
    type V = CrateId;

    open spec fn deep_view(&self) -> CrateId {
        self@
    }
}

impl Clone for Crate {
    fn clone(&self) -> (c: Self)
        ensures
            c@ == self@,
    {
        Crate { name: self.name.clone(), version: self.version.clone() }
    }
}

impl Crate {
    /// The package with this name and version.
    pub fn new(name: &str, version: &str) -> (c: Crate)
        ensures
            c@ == (name@, version@),
    {
        Crate { name: name.to_owned(), version: version.to_owned() }
    }
}

/// The order of packages: by name, and under one name by version.
pub open spec fn crate_lt(a: CrateId, b: CrateId) -> bool {
    text_lt(a.0, b.0) || (a.0 == b.0 && text_lt(a.1, b.1))
}

/// Of two packages at most one precedes the other, and then they differ.
pub proof fn crate_lt_asymmetric(a: CrateId, b: CrateId)
    requires
        crate_lt(a, b),
    ensures
        !crate_lt(b, a),
        a != b,
{
    if text_lt(a.0, b.0) {
        text_lt_asymmetric(a.0, b.0);
    } else {
        text_lt_asymmetric(a.1, b.1);
    }
}

/// The order of packages is transitive.
pub proof fn crate_lt_transitive(a: CrateId, b: CrateId, c: CrateId)
    requires
        crate_lt(a, b),
        crate_lt(b, c),
    ensures
        crate_lt(a, c),
{
    if text_lt(a.0, b.0) && text_lt(b.0, c.0) {
        text_lt_transitive(a.0, b.0, c.0);
    } else if a.0 == b.0 && b.0 == c.0 {
        text_lt_transitive(a.1, b.1, c.1);
    }
}

/// Compares two packages by name, then by version.
pub fn compare_crates(a: &Crate, b: &Crate) -> (o: Order)
    ensures
        o == Order::Less <==> crate_lt(a@, b@),
        o == Order::Equal <==> a@ == b@,
        o == Order::Greater <==> crate_lt(b@, a@),
{
    match compare(a.name.as_str(), b.name.as_str()) {
        Order::Less => {
            proof {
                crate_lt_asymmetric(a@, b@);
            }
            Order::Less
        },
        Order::Greater => {
            proof {
                crate_lt_asymmetric(b@, a@);
            }
            Order::Greater
        },
        Order::Equal => {
            let o = compare(a.version.as_str(), b.version.as_str());
            proof {
                if text_lt(a.version@, b.version@) {
                    crate_lt_asymmetric(a@, b@);
                }
                if text_lt(b.version@, a.version@) {
                    crate_lt_asymmetric(b@, a@);
                }
                text_lt_irreflexive(a.name@);
            }
            o
        },
    }
}

} // verus!
