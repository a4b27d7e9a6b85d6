//! Modules: units that group abilities and are initialised and shut down as a whole.
use vstd::prelude::*;

use crate::text::str_equal;

verus! {

/// The identity of a module: its stable, unique name.
#[derive(Debug, Clone, Copy, Hash)]
pub struct ModuleIdentity(pub &'static str);

impl ModuleIdentity {
    /// The identity with the given name.
    pub fn new(id: &'static str) -> (r: Self)
        ensures
            r.0 == id,
    {
        ModuleIdentity(id)
    }
}

impl PartialEq for ModuleIdentity {
    fn eq(&self, other: &Self) -> (r: bool) {
        str_equal(self.0, other.0)
    }
}

impl Eq for ModuleIdentity {}

impl vstd::std_specs::cmp::PartialEqSpecImpl for ModuleIdentity {
    open spec fn obeys_eq_spec() -> bool {
        true
    }

    open spec fn eq_spec(&self, other: &Self) -> bool {
        self.0@ == other.0@
    }
}

/// What a module declares about itself.
#[derive(Debug, Copy, Clone)]
pub struct ModuleDescriptor {
    pub identity: ModuleIdentity,
    pub display_name: &'static str,
    pub description: &'static str,
    pub version: &'static str,
    pub author: Option<&'static str>,
    /// When set, the module is skipped entirely: neither initialised nor run.
    pub is_disabled: bool,
    /// When set, the module still runs but its results are kept out of the output.
    pub force_disabled_output: bool,
    /// Output suppression decided while running.
    pub auto_disable_output: bool,
}

} // verus!
