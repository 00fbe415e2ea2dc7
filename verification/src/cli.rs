//! The command line options of the compositor, as values.
//!
//! Parsing the command line is left to the program; these are the values it produces.

use vstd::prelude::*;

verus! {

/// All possible backend selections.
#[derive(Debug, Clone, Copy, PartialEq, Eq, Structural)]
pub enum BackendSelection {
    /// Automatically choose the backend depending on the environment.
    Auto,
    /// Launch the compositor using kernel mode setting, as from a TTY.
    Kms,
    /// Launch the compositor inside a window, as a Wayland or X11 client as appropriate.
    Windowed,
    /// Launch the compositor inside a window as a Wayland client.
    Wayland,
    /// Launch the compositor inside a window as an X11 client.
    X11,
}

impl Default for BackendSelection {
    fn default() -> (b: BackendSelection)
        ensures
            b == BackendSelection::Auto,
    {
        BackendSelection::Auto
    }
}

/// The options of the Aerugo wayland compositor.
#[derive(Debug, Clone, Copy, PartialEq, Eq, Structural)]
pub struct AerugoArgs {
    /// Backend selection; by default the backend is chosen depending on the environment.
    pub backend: BackendSelection,
}

} // verus!
