//! The source router: classifies a source identifier and names the
//! adapter that must fetch it. Classification is total; a bad key
//! surfaces later as a fetch failure, never here.

use vstd::prelude::*;
use crate::outside::{is_absolute_url, parses_as_url};
use crate::text::{has_digit, str_eq, str_has_digit};

verus! {

/// Which adapter a source identifier is served by.
#[derive(Clone, Copy, Debug, PartialEq, Eq, Structural)]
pub enum Route {
    /// A well-formed URL: the passthrough-JSON adapter.
    Passthrough,
    /// Holds a digit: the homebrew-API adapter, with the raw identifier.
    Homebrew,
    /// The reserved identifier of the baseline catalog.
    Baseline,
    /// Anything else: the compendium-mirror adapter, as a catalog key.
    Compendium,
}

/// Every string maps to exactly one adapter.
pub open spec fn route_spec(s: Seq<char>) -> Route {
    if is_absolute_url(s) {
        Route::Passthrough
    } else if has_digit(s) {
        Route::Homebrew
    } else if s == "srd"@ {
        Route::Baseline
    } else {
        Route::Compendium
    }
}

pub fn classify_source(source: &str) -> (r: Route)
    ensures
        r == route_spec(source@),
{
    if parses_as_url(source) {
        Route::Passthrough
    } else if str_has_digit(source) {
        Route::Homebrew
    } else if str_eq(source, "srd") {
        Route::Baseline
    } else {
        Route::Compendium
    }
}

} // verus!
