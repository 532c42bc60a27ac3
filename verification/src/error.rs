use vstd::prelude::*;

verus! {

/// The ways a serialize or deserialize call can fail.  The first error aborts
/// the whole call: there is no partial recovery, and a failed call hands no
/// partial output to the caller.
#[derive(Debug)]
pub enum Error {
    /// A violation with an opaque description, such as a variant discriminant
    /// that no variant of the target shape carries.
    Message(String),
    /// A failure of the underlying raw-byte write path.
    Io,
    /// A shape this codec does not model: characters, strings, maps, options.
    Unsupported,
    /// A read past the end of the available bits, or a bit container too wide
    /// for the requested single-byte view.
    OutOfRange,
}

} // verus!
