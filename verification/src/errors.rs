use vstd::prelude::*;

verus! {

/// Error taxonomy of the engine.
///
/// `InvalidWindow` and `UnresolvableRecurrence` are input-validation errors,
/// surfaced to the immediate caller and never retried. `ExpansionConflict`
/// signals a lost compare-and-advance on a watermark; the caller re-reads and
/// retries. `SourceUnavailable` stands for an opaque external-adapter failure
/// and degrades to fail-closed busy reporting.
#[derive(Clone, Copy, Debug, PartialEq, Eq, Structural)]
pub enum CoreError {
    InvalidWindow,
    UnresolvableRecurrence,
    ExpansionConflict,
    SourceUnavailable,
}

} // verus!
