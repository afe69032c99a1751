//! Settings of the runtime and the names that refer to them.
use vstd::prelude::*;
use vstd::string::StringSliceAdditionalSpecFns;

verus! {

/// Whether a name refers to a setting: it starts and ends with `__` (the two may overlap).
pub open spec fn env_name(b: Seq<u8>) -> bool {
    b.len() >= 2 && b[0] == 95 && b[1] == 95 && b[b.len() - 2] == 95 && b[b.len() - 1] == 95
}

/// Whether a name refers to a setting (see `env_name`).
pub fn is_env(name: &str) -> (r: bool)
    ensures
        r == env_name(name.spec_bytes()),
{
    let b = name.as_bytes();
    let n = b.len();
    n >= 2 && b[0] == 95 && b[1] == 95 && b[n - 2] == 95 && b[n - 1] == 95
}

/// The runtime's settings: decimal places printed for reals, whether an assignment prints its
/// value, how much detail errors give, how deep calls may nest and the index of a sequence's
/// first item (0 or 1).
#[derive(Debug, Clone, Copy, PartialEq, Eq, Structural)]
pub struct Env {
    pub precision: u32,
    pub print_set_inst: u32,
    pub detail_depth: u32,
    pub max_stack_depth: u32,
    pub index_base: u32,
}

impl Env {
    /// The settings a runtime starts with.
    pub fn new() -> (r: Self)
        ensures
            r == (Env { precision: 7, print_set_inst: 1, detail_depth: 0, max_stack_depth: 512, index_base: 0 }),
    {
        Env { precision: 7, print_set_inst: 1, detail_depth: 0, max_stack_depth: 512, index_base: 0 }
    }
}

} // verus!
