//! Native shell library for a desktop expense-manager application.
//!
//! The library holds the verified core of the shell: an INI-style
//! configuration store with typed accessors, the decimal and boolean
//! codecs those accessors use, the pure parts of the backend process
//! supervisor (invocation resolution, readiness polling, handle
//! ownership), and platform path composition.  All file, network and
//! process I/O stays outside the library and hands plain values in.

pub mod config;
pub mod ini;
pub mod num;
pub mod paths;
pub mod supervisor;

use vstd::prelude::*;

verus! {

/// Whether the shell runs against a locally started development
/// backend or a bundled production binary.  The two modes resolve the
/// backend invocation differently and choose the fallback port
/// differently.
#[derive(Clone, Copy, PartialEq, Eq, Structural)]
pub enum BuildMode {
    Development,
    Production,
}

} // verus!
