//! Errors are reported as `oxc_diagnostics::OxcDiagnostic` values.
use oxc_diagnostics::OxcDiagnostic;
use vstd::prelude::*;

use crate::semantics::ErrorView;

verus! {

#[verifier::external_type_specification]
#[verifier::external_body]
pub struct ExOxcDiagnostic(OxcDiagnostic);

/// The diagnostic that `OxcDiagnostic::error(message).with_label(Span::new(start, end))`
/// builds: an error-severity diagnostic with that message and one unnamed
/// label over `start..end`.
pub uninterp spec fn labelled_error(message: Seq<char>, start: u32, end: u32) -> OxcDiagnostic;

/// Calls `OxcDiagnostic::error` with `message`, then `with_label` with the
/// `oxc_span::Span` from `start` to `end` (built by `Span::new`). The contract
/// claims only that the result is the one these calls give for these
/// arguments; what it holds inside is left to `oxc_diagnostics`. Turning the
/// span into a label takes its size, which debug-asserts `start <= end`: hence
/// the requirement.
#[verifier::external_body]
pub(crate) fn make_error(message: String, start: u32, end: u32) -> (r: OxcDiagnostic)
    requires
        start <= end,
    ensures
        r == labelled_error(message@, start, end),
{
    OxcDiagnostic::error(message).with_label(oxc_span::Span::new(start, end))
}

/// The diagnostics reported for `errors`, in order.
pub open spec fn diagnostics(errors: Seq<ErrorView>) -> Seq<OxcDiagnostic> {
    errors.map_values(|e: ErrorView| labelled_error(e.message, e.start as u32, e.end as u32))
}

} // verus!
