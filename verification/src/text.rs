//! Text for fault messages.

use vstd::prelude::*;

verus! {

/// What a duration of `secs` seconds and `nanos` nanoseconds looks like as a
/// number of seconds with one decimal.
pub uninterp spec fn tenths_text(secs: u64, nanos: u32) -> Seq<char>;

/// What a duration of `secs` seconds and `nanos` nanoseconds looks like as a
/// number of seconds with as many decimals as it takes.
pub uninterp spec fn seconds_text(secs: u64, nanos: u32) -> Seq<char>;

/// Formats seconds with one decimal: `core::fmt` with `{:.1}` on the number
/// that `core::time::Duration::as_secs_f64` returns. The text is named, not
/// described: it depends on the two arguments alone.
#[verifier::external_body]
pub(crate) fn format_tenths(secs: u64, nanos: u32) -> (r: String)
    requires
        nanos < 1_000_000_000,
    ensures
        r@ == tenths_text(secs, nanos),
{
    format!("{:.1}", core::time::Duration::new(secs, nanos).as_secs_f64())
}

/// Formats seconds in full: `core::fmt` with `{}` on the number that
/// `core::time::Duration::as_secs_f64` returns. The text is named, not
/// described: it depends on the two arguments alone.
#[verifier::external_body]
pub(crate) fn format_seconds(secs: u64, nanos: u32) -> (r: String)
    requires
        nanos < 1_000_000_000,
    ensures
        r@ == seconds_text(secs, nanos),
{
    format!("{}", core::time::Duration::new(secs, nanos).as_secs_f64())
}

/// The word for a truth value.
pub open spec fn bool_text(b: bool) -> Seq<char> {
    if b {
        "true"@
    } else {
        "false"@
    }
}

/// The word for a truth value.
pub(crate) fn bool_str(b: bool) -> (r: &'static str)
    ensures
        r@ == bool_text(b),
{
    if b {
        "true"
    } else {
        "false"
    }
}

} // verus!
