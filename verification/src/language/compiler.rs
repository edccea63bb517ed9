use vstd::prelude::*;

verus! {

/// The command-line arguments of the Resin compiler.
pub struct Args {
    /// The Resin source to apply.
    pub source: String,
}

} // verus!
