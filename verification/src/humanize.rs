//! The two text-formatting collaborators the renderer calls: named
//! results for what they return, and the trusted calls into them.

use vstd::prelude::*;

verus! {

/// What `humansize::format_size` renders a byte count as, in decimal
/// (powers-of-1000) units: a function of the byte count alone.
pub uninterp spec fn size_text(size: u64) -> Seq<char>;

/// What `timeago`'s default English formatter renders an elapsed
/// duration as ("now", "3 minutes ago"): a function of the duration
/// alone.
pub uninterp spec fn time_ago_text(secs: u64, nanos: u32) -> Seq<char>;

/// Relies on `humansize::format_size` with the `DECIMAL` options: the
/// result depends on the byte count alone.
#[verifier::external_body]
pub(crate) fn format_size(size: u64) -> (r: String)
    ensures
        r@ == size_text(size),
{
    humansize::format_size(size, humansize::DECIMAL)
}

/// Relies on `timeago::Formatter::new().convert`: the default formatter
/// is a fixed English configuration, so the result depends on the
/// duration alone. `Duration::new` asks for a normalized sub-second
/// part, hence the bound on `nanos`.
#[verifier::external_body]
pub(crate) fn format_time_ago(secs: u64, nanos: u32) -> (r: String)
    requires
        nanos < 1_000_000_000,
    ensures
        r@ == time_ago_text(secs, nanos),
{
    timeago::Formatter::new().convert(std::time::Duration::new(secs, nanos))
}

} // verus!
