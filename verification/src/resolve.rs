//! The outcome of a resolution: which packages each package was given for
//! its requirements, and which packages stand in for others.

use crate::package::{
    lemma_position_absent, lemma_position_found, position, PackageId, PackageIdView,
};
use vstd::prelude::*;

verus! {

/// A resolution snapshot.
///
/// `deps` lists, for a package, the packages that were chosen to meet its
/// requirements, as the manifests name them. `replacements` lists the
/// packages that are overridden, each with the package used in its place.
/// Where an identity is listed twice, the first entry counts.
#[derive(Debug, PartialEq, Eq)]
pub struct Resolve {
    pub deps: Vec<(PackageId, Vec<PackageId>)>,
    pub replacements: Vec<(PackageId, PackageId)>,
}

/// The identities that `deps` has an entry for.
pub open spec fn resolved_ids(deps: Seq<(PackageId, Vec<PackageId>)>) -> Seq<PackageIdView> {
    deps.map_values(|e: (PackageId, Vec<PackageId>)| e.0@)
}

/// The identities that `replacements` overrides.
pub open spec fn replaced_ids(replacements: Seq<(PackageId, PackageId)>) -> Seq<PackageIdView> {
    replacements.map_values(|e: (PackageId, PackageId)| e.0@)
}

impl Resolve {
    /// The packages chosen for the requirements of `id`, before any
    /// replacement: none where the resolution does not know `id`.
    pub open spec fn chosen_for(&self, id: PackageIdView) -> Seq<PackageId> {
        match position(resolved_ids(self.deps@), id) {
            Some(i) => self.deps@[i].1@,
            None => Seq::empty(),
        }
    }

    /// The package that stands in for `id`, where `id` is overridden.
    pub open spec fn replacement_of(&self, id: PackageIdView) -> Option<PackageId> {
        match position(replaced_ids(self.replacements@), id) {
            Some(i) => Some(self.replacements@[i].1),
            None => None,
        }
    }

    /// The package that is used where `id` was chosen: its replacement
    /// where it has one, itself where it has none.
    pub open spec fn effective(&self, id: PackageIdView) -> PackageIdView {
        match self.replacement_of(id) {
            Some(to) => to@,
            None => id,
        }
    }

    /// The packages chosen for the requirements of `id`, before any
    /// replacement.
    pub fn deps_not_replaced(&self, id: &PackageId) -> (res: &[PackageId])
        ensures
            res@ == self.chosen_for(id@),
    {
        let mut i: usize = 0;
        while i < self.deps.len()
            invariant
                i <= self.deps.len(),
                forall|j: int| 0 <= j < i ==> resolved_ids(self.deps@)[j] != id@,
            decreases self.deps.len() - i,
        {
            if self.deps[i].0.same(id) {
                proof {
                    lemma_position_found(resolved_ids(self.deps@), id@, i as int);
                }
                return self.deps[i].1.as_slice();
            }
            i = i + 1;
        }
        proof {
            lemma_position_absent(resolved_ids(self.deps@), id@);
        }
        let none: &[PackageId] = &[];
        assert(none@ =~= Seq::empty());
        none
    }

    /// The package that stands in for `id`, where `id` is overridden.
    pub fn replacement(&self, id: &PackageId) -> (res: Option<&PackageId>)
        ensures
            match res {
                Some(to) => self.replacement_of(id@) == Some(*to),
                None => self.replacement_of(id@) is None,
            },
    {
        let mut i: usize = 0;
        while i < self.replacements.len()
            invariant
                i <= self.replacements.len(),
                forall|j: int| 0 <= j < i ==> replaced_ids(self.replacements@)[j] != id@,
            decreases self.replacements.len() - i,
        {
            if self.replacements[i].0.same(id) {
                proof {
                    lemma_position_found(replaced_ids(self.replacements@), id@, i as int);
                }
                return Some(&self.replacements[i].1);
            }
            i = i + 1;
        }
        proof {
            lemma_position_absent(replaced_ids(self.replacements@), id@);
        }
        None
    }
}

} // verus!
