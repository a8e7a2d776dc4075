//! The keys under which extensions are kept.

use vstd::prelude::*;

verus! {

/// The key of an extension: the identifier of its type, and the name of the
/// type for the reader. Two keys are the same key where the identifiers are
/// the same; the name takes no part in it.
#[derive(Clone, Copy, Debug)]
pub struct TypeKey(pub u64, pub &'static str);

impl TypeKey {
    /// The key of the type with the identifier `id`, which goes by `name`.
    pub fn of(id: u64, name: &'static str) -> (key: TypeKey)
        ensures
            key.0 == id,
            key.1 == name,
    {
        TypeKey(id, name)
    }

    /// The identifier of the type.
    pub fn id(&self) -> (id: u64)
        ensures
            id == self.0,
    {
        self.0
    }

    /// The name of the type.
    pub fn name(&self) -> (name: &'static str)
        ensures
            name == self.1,
    {
        self.1
    }
}

impl PartialEq for TypeKey {
    fn eq(&self, other: &Self) -> (same: bool) {
        self.0 == other.0
    }
}

impl Eq for TypeKey {

}

impl vstd::std_specs::cmp::PartialEqSpecImpl for TypeKey {
    open spec fn obeys_eq_spec() -> bool {
        true
    }

    open spec fn eq_spec(&self, other: &Self) -> bool {
        self.0 == other.0
    }
}

} // verus!
