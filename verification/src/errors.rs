//! Error kinds of the setup pipeline.

use vstd::prelude::*;

verus! {

/// Semantic error categories of the container readers, the curve registry
/// and the zkey planning checks.
#[derive(Clone, Copy, Debug, PartialEq, Eq, Structural)]
pub enum SetupError {
    /// The 4-byte tag at the start of the file is not the expected one.
    BadMagic,
    /// The file's version field exceeds the reader's maximum.
    UnsupportedVersion,
    /// A read ran past the end of the file or of a declared section.
    Truncated,
    /// A required section is missing.
    NoSuchSection,
    /// A section that must be unique appears more than once.
    DuplicateSection,
    /// A structured read consumed a number of bytes different from the
    /// declared section size.
    SectionSizeMismatch,
    /// The base-field modulus matches no recognized curve.
    UnsupportedCurve,
    /// The R1CS prime differs from the PTau curve's scalar modulus.
    CurveMismatch,
    /// The PTau file lacks section 12, the prepared tables.
    PTauNotPrepared,
    /// The circuit needs a larger evaluation domain than the PTau provides.
    CircuitTooBig,
    /// A section read was asked for a range outside the section.
    OutOfBounds,
}

} // verus!
