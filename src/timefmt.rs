use vstd::prelude::*;

verus! {

/// The UTC date and time of an instant, `nanos` nanoseconds after the Unix
/// epoch, written as `YYYY-MM-DD   HH:MM:SS`.
pub uninterp spec fn utc_text(nanos: u64) -> Seq<char>;

/// Relies on chrono's conversion of a `SystemTime` to `DateTime<Utc>` and
/// its `format`: the text depends on the instant alone, and every field of
/// the format has a fixed width for the years an instant of `u64`
/// nanoseconds can reach (1970 to 2554).
#[verifier::external_body]
fn format_utc(nanos: u64) -> (r: String)
    ensures
        r@ == utc_text(nanos),
        r@.len() == 21,
        r@[4] == '-' && r@[7] == '-' && r@[10] == ' ' && r@[11] == ' ' && r@[12] == ' ',
        r@[15] == ':' && r@[18] == ':',
{
    let at = std::time::UNIX_EPOCH + std::time::Duration::from_nanos(nanos);
    chrono::DateTime::<chrono::Utc>::from(at).format("%Y-%m-%d   %H:%M:%S").to_string()
}

/// Writes an access time for the report.
pub fn time_to_string(nanos: u64) -> (r: String)
    ensures
        r@ == utc_text(nanos),
        r@.len() == 21,
        r@[4] == '-' && r@[7] == '-' && r@[10] == ' ' && r@[11] == ' ' && r@[12] == ' ',
        r@[15] == ':' && r@[18] == ':',
{
    format_utc(nanos)
}

} // verus!
