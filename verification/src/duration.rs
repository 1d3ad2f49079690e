//! How long a search took.

use crate::text;
use vstd::prelude::*;
use vstd::string::*;

verus! {

/// What the `Debug` output of `std::time::Duration` shows for a time of less than a minute.
pub uninterp spec fn short_duration_text(secs: u64, nanos: u32) -> Seq<char>;

/// Prints a `std::time::Duration` with its `Debug` output, which the seconds and the nanoseconds
/// fix. How it chooses the unit and the digits is not stated here.
#[verifier::external_body]
fn debug_duration(secs: u64, nanos: u32) -> (r: String)
    requires
        nanos < 1_000_000_000,
    ensures
        r@ == short_duration_text(secs, nanos),
{
    format!("{:?}", std::time::Duration::new(secs, nanos))
}

/// A time in words. From a minute on it is given in minutes and seconds.
pub open spec fn duration_text(secs: u64, nanos: u32) -> Seq<char> {
    if secs >= 60 {
        text::decimal((secs / 60) as nat) + seq!['m', ' '] + text::decimal((secs % 60) as nat)
            + seq!['s']
    } else {
        short_duration_text(secs, nanos)
    }
}

/// Puts a time of `secs` seconds and `nanos` nanoseconds into words.
pub fn format_duration(secs: u64, nanos: u32) -> (r: String)
    requires
        nanos < 1_000_000_000,
    ensures
        r@ == duration_text(secs, nanos),
{
    if secs < 60 {
        return debug_duration(secs, nanos);
    }
    proof {
        reveal_strlit("m ");
        reveal_strlit("s");
    }
    let mut out: String = text::decimal_text(secs / 60);
    out.append("m ");
    out.append(text::decimal_text(secs % 60).as_str());
    out.append("s");
    assert(out@ =~= duration_text(secs, nanos));
    out
}

/// A time of a minute or more is given by its whole minutes and the seconds that are left, without
/// the parts of a second; a shorter one as the standard library prints it.
pub proof fn lemma_duration_text(minutes: u64, seconds: u64, nanos: u32)
    requires
        seconds < 60,
        60 * minutes + seconds <= u64::MAX,
    ensures
        minutes > 0 ==> duration_text((60 * minutes + seconds) as u64, nanos) == text::decimal(
            minutes as nat,
        ) + seq!['m', ' '] + text::decimal(seconds as nat) + seq!['s'],
        minutes == 0 ==> duration_text(seconds, nanos) == short_duration_text(seconds, nanos),
{
    let secs = (60 * minutes + seconds) as u64;
    assert(secs / 60 == minutes && secs % 60 == seconds);
}

} // verus!
