//! Semantic version values and the (name, version) key that orders
//! dependency records.

use vstd::prelude::*;
use core::cmp::Ordering;
use crate::order::{KeyProj, TotalOrd};
use crate::text::{lemma_lex_cmp_eq, lemma_lex_cmp_flip, lemma_lex_cmp_trans_le, lex_cmp, str_cmp};

verus! {

/// A semantic version: precedence is decided by the numeric
/// major.minor.patch triple, compared component-wise.
#[derive(Clone, Copy, Debug, PartialEq, Eq, Structural)]
pub struct Version {
    pub major: u64,
    pub minor: u64,
    pub patch: u64,
}

impl Version {
    pub fn new(major: u64, minor: u64, patch: u64) -> (r: Self)
        ensures
            r == (Version { major, minor, patch }),
    {
        Version { major, minor, patch }
    }
}

/// Component-wise comparison of version triples.
pub open spec fn version_cmp(a: Version, b: Version) -> Ordering {
    if a.major != b.major {
        if a.major < b.major {
            Ordering::Less
        } else {
            Ordering::Greater
        }
    } else if a.minor != b.minor {
        if a.minor < b.minor {
            Ordering::Less
        } else {
            Ordering::Greater
        }
    } else if a.patch != b.patch {
        if a.patch < b.patch {
            Ordering::Less
        } else {
            Ordering::Greater
        }
    } else {
        Ordering::Equal
    }
}

impl TotalOrd for Version {
    open spec fn cmp_spec(&self, other: &Self) -> Ordering {
        version_cmp(*self, *other)
    }

    proof fn lemma_cmp_laws(a: &Self, b: &Self, c: &Self) {
    }

    fn cmp_exec(&self, other: &Self) -> (r: Ordering) {
        proof {
            assert(self.cmp_spec(other) == version_cmp(*self, *other));
        }
        if self.major != other.major {
            if self.major < other.major {
                Ordering::Less
            } else {
                Ordering::Greater
            }
        } else if self.minor != other.minor {
            if self.minor < other.minor {
                Ordering::Less
            } else {
                Ordering::Greater
            }
        } else if self.patch != other.patch {
            if self.patch < other.patch {
                Ordering::Less
            } else {
                Ordering::Greater
            }
        } else {
            Ordering::Equal
        }
    }
}

/// The logical identity of a dependency record: primary key the name,
/// secondary key the version. Records with the same key compare equal even
/// when their identifiers differ.
pub struct CrateKey {
    pub name: String,
    pub version: Version,
}

/// Name first, then version.
pub open spec fn crate_key_cmp(a: CrateKey, b: CrateKey) -> Ordering {
    if lex_cmp(a.name@, b.name@) != Ordering::Equal {
        lex_cmp(a.name@, b.name@)
    } else {
        version_cmp(a.version, b.version)
    }
}

impl TotalOrd for CrateKey {
    open spec fn cmp_spec(&self, other: &Self) -> Ordering {
        crate_key_cmp(*self, *other)
    }

    proof fn lemma_cmp_laws(a: &Self, b: &Self, c: &Self) {
        lemma_lex_cmp_eq(a.name@, a.name@);
        lemma_lex_cmp_eq(a.name@, b.name@);
        lemma_lex_cmp_eq(a.name@, c.name@);
        lemma_lex_cmp_eq(b.name@, c.name@);
        lemma_lex_cmp_flip(a.name@, b.name@);
        lemma_lex_cmp_flip(b.name@, c.name@);
        lemma_lex_cmp_flip(a.name@, c.name@);
        if lex_cmp(a.name@, b.name@) != Ordering::Greater && lex_cmp(b.name@, c.name@)
            != Ordering::Greater {
            lemma_lex_cmp_trans_le(a.name@, b.name@, c.name@);
        }
        if lex_cmp(c.name@, b.name@) != Ordering::Greater && lex_cmp(b.name@, a.name@)
            != Ordering::Greater {
            lemma_lex_cmp_trans_le(c.name@, b.name@, a.name@);
        }
    }

    fn cmp_exec(&self, other: &Self) -> (r: Ordering) {
        let byname = str_cmp(self.name.as_str(), other.name.as_str());
        if matches!(byname, Ordering::Equal) {
            self.version.cmp_exec(&other.version)
        } else {
            byname
        }
    }
}

} // verus!
