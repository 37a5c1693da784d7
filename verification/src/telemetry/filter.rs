//! The log filter the subscriber is installed with.
use vstd::prelude::*;

verus! {

/// Whether `tracing_subscriber::EnvFilter::try_new` accepts a directive
/// string (its verdict depends on the text alone).
pub uninterp spec fn filter_directives_valid(text: Seq<char>) -> bool;

/// Asks `tracing_subscriber::EnvFilter::try_new` whether `level` is a valid
/// list of filter directives; the directive grammar is that crate's.
#[verifier::external_body]
fn env_filter_accepts(level: &str) -> (ok: bool)
    ensures
        ok == filter_directives_valid(level@),
{
    tracing_subscriber::EnvFilter::try_new(level).is_ok()
}

/// The filter directives to install: the configured log level when it is a
/// valid filter, else `info`.
pub fn effective_log_filter(level: &str) -> (s: String)
    ensures
        s@ == if filter_directives_valid(level@) {
            level@
        } else {
            "info"@
        },
{
    if env_filter_accepts(level) {
        String::from_str(level)
    } else {
        String::from_str("info")
    }
}

} // verus!
