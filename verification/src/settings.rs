//! Settings for the virtual machine.
use vstd::prelude::*;

verus! {

/// Settings for the Spore virtual machine.
#[derive(Copy, Clone, Debug, PartialEq, Eq, Structural)]
pub struct Settings {
    /// If aggressive inlining should be used. This should be disabled for any interactive
    /// development where values may be redefined.
    pub enable_aggressive_inline: bool,
    /// If true, debug information will be preserved at the cost of higher RAM usage.
    pub enable_source_maps: bool,
}

impl Default for Settings {
    /// No aggressive inlining; source maps kept.
    fn default() -> (r: Settings)
        ensures
            !r.enable_aggressive_inline,
            r.enable_source_maps,
    {
        Settings { enable_aggressive_inline: false, enable_source_maps: true }
    }
}

} // verus!
