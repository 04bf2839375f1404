//! The error a driver loop reports for a meta command it does not know.

use vstd::prelude::*;

verus! {

/// A meta command (a line starting with `.`) that the driver does not
/// recognize; carries the offending line.
#[derive(Debug)]
pub struct UnrecognizedCommand(pub String);

} // verus!
