//! Process configuration.

use vstd::prelude::*;

verus! {

/// What the process needs to serve workspaces: the port to listen on and
/// the directory the workspaces live under.
pub struct Settings {
    pub application_port: u16,
    pub workspaces_path: String,
}

} // verus!
