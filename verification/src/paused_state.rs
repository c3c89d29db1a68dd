//! Plain data shared with the pause-menu state.

use vstd::prelude::*;

verus! {

/// Resource to optionally disable movement; unless it is set to
/// `true`, movement stays enabled, and the default is `false`.
pub struct MovementDisabler {
    pub enabled: bool,
}

impl Default for MovementDisabler {
    fn default() -> (d: Self)
        ensures
            !d.enabled,
    {
        MovementDisabler { enabled: false }
    }
}

/// The actions the pause-menu buttons can carry out.
#[derive(Clone, Copy, Hash)]
pub enum PausedStateMenuAction {
    /// Toggle between stepped and held movement.
    ToggleMovement,
}

} // verus!
