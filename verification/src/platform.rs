//! The operating-system family the program runs on, as far as the library's
//! decisions depend on it.

use vstd::prelude::*;

verus! {

/// Which backends exist depends only on this.
#[derive(Debug, Clone, Copy, PartialEq, Eq, Structural)]
pub enum Platform {
    MacOs,
    Windows,
    /// Linux and the other Unix desktops.
    Other,
}

} // verus!
