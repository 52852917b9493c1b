use vstd::prelude::*;

verus! {

/// Why validation of the next code point failed.
///
/// The cases are mutually exclusive and ordered by where in the pipeline
/// they can occur: classification, byte extraction, then the checks on
/// the assembled value.
#[derive(Copy, Clone, Debug, PartialEq, Eq)]
pub enum UtfError {
    /// The byte source was exhausted before the sequence was complete
    /// (end of input, not malformation).
    NotEnoughRoom,
    /// The lead byte matches none of the four valid lead shapes; carries
    /// the offending byte.
    InvalidLead(u8),
    /// A byte was present where a continuation byte was expected but does
    /// not match `10xxxxxx`; carries the partially assembled value.
    IncompleteSequence(u32),
    /// The decoded value could have been encoded in fewer bytes; carries
    /// the decoded value.
    OverlongSequence(u32),
    /// The decoded value exceeds the maximum scalar value or falls in the
    /// surrogate range; carries the decoded value.
    InvalidCodePoint(u32),
}

} // verus!
