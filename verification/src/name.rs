//! Package-scoped, normalized identifiers.

use vstd::prelude::*;
use crate::util::{simplify_chars, simplify_str, str_eq};

verus! {

/// The mathematical value of a [`Name`]: an identifier as a character
/// sequence, and the index of the package the name is scoped to.
#[verifier::ext_equal]
pub struct NameV {
    pub id: Seq<char>,
    pub package: u32,
}

/// A package-scoped identifier for a resource or property. The identifier
/// is normalized (lowercase, with everything but letters, digits and `:`
/// dropped) so that equal names compare equal structurally. Immutable once
/// constructed.
#[derive(Debug, Clone, PartialEq, Eq, Hash)]
pub struct Name {
    pub id: String,
    pub package: u32,
}

impl View for Name {
    type V = NameV;

    open spec fn view(&self) -> NameV {
        NameV { id: self.id@, package: self.package }
    }
}

impl Name {
    /// Builds a name by normalizing `id`; the package index is kept as given.
    pub fn new(id: &str, package: u32) -> (r: Name)
        ensures
            r@ == (NameV { id: simplify_chars(id@), package: package }),
    {
        Name { id: simplify_str(id), package: package }
    }

    /// Structural equality of two names.
    pub fn eq_name(&self, other: &Name) -> (r: bool)
        ensures
            r == (self@ == other@),
    {
        let r = self.package == other.package && str_eq(self.id.as_str(), other.id.as_str());
        proof {
            if self.package == other.package && self.id@ == other.id@ {
                assert(self@ =~= other@);
            }
        }
        r
    }
}

} // verus!
