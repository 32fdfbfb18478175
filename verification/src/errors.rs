use vstd::prelude::*;

verus! {

/// A fatal error raised while aggregating a corpus or exporting the table.
///
/// Parse failures are fatal for the whole run: silently skipping a
/// malformed data line would corrupt the aggregate counts undetected.
#[derive(Clone, Copy, Debug, PartialEq, Eq, Structural)]
pub enum AggError {
    /// One of the first five lines of a file does not start with `@`.
    MalformedHeader,
    /// A data line holds no token at all.
    MissingWord,
    /// A data line has no second token, or it is not a base-10 integer
    /// that fits the count type.
    MissingOrInvalidCount,
    /// A cumulative count or a running total left the storable range.
    CountOverflow,
    /// A table write, reset or scan failed; the table's state is
    /// untrusted. A failed single-key lookup is not reported here: it
    /// reads as zero and processing goes on.
    Store,
}

} // verus!
