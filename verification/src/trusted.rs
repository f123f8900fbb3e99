//! The crate's trusted boundary: every call into an outside crate (and the
//! one std function vstd gives no specification) stands here, behind a
//! contract that states no more than the callee's own source shows.

use vstd::prelude::*;

verus! {

/// Relies on String::push: appends the given character to the end.
pub assume_specification[ String::push ](s: &mut String, ch: char)
    ensures
        final(s)@ == old(s)@.push(ch),
;

/// The current wall-clock time in milliseconds since the Unix epoch.
/// Nothing can be promised of it.
///
/// Relies on chrono's Utc::now and DateTime::timestamp_millis.
#[verifier::external_body]
pub fn now_millis() -> i64 {
    chrono::Utc::now().timestamp_millis()
}

/// The `YYYY-MM-DD` rendering of a timestamp in milliseconds since the
/// epoch (the empty string on the rare timestamp outside chrono's
/// representable date range), a function of the timestamp alone.
pub uninterp spec fn ymd_of(ms: i64) -> Seq<char>;

/// Relies on chrono's DateTime::from_timestamp_millis (None only outside
/// the representable date range, on the order of plus or minus 262,000
/// years) and its `%Y-%m-%d` formatting, a function of the timestamp
/// alone.
#[verifier::external_body]
pub fn format_ymd(ms: i64) -> (r: String)
    ensures
        r@ == ymd_of(ms),
{
    chrono::DateTime::<chrono::Utc>::from_timestamp_millis(ms)
        .map(|t| t.format("%Y-%m-%d").to_string())
        .unwrap_or_default()
}

/// The RFC 3339 rendering with millisecond precision and a `Z` suffix of a
/// timestamp in milliseconds since the epoch (the empty string on the rare
/// timestamp outside chrono's representable date range), a function of the
/// timestamp alone.
pub uninterp spec fn rfc3339_millis_of(ms: i64) -> Seq<char>;

/// Relies on chrono's DateTime::from_timestamp_millis (None only outside
/// the representable date range) and DateTime::to_rfc3339_opts, a function
/// of the timestamp alone.
#[verifier::external_body]
pub fn format_rfc3339_millis(ms: i64) -> (r: String)
    ensures
        r@ == rfc3339_millis_of(ms),
{
    chrono::DateTime::<chrono::Utc>::from_timestamp_millis(ms)
        .map(|t| t.to_rfc3339_opts(chrono::SecondsFormat::Millis, true))
        .unwrap_or_default()
}

/// What chrono's RFC 3339 parser makes of a string: the parsed instant in
/// milliseconds since the epoch, or None where the text does not parse.
/// A function of the text alone.
pub uninterp spec fn rfc3339_parsed_of(s: Seq<char>) -> Option<i64>;

/// Relies on str::parse::<DateTime<Utc>> (chrono's FromStr), whose result
/// depends on the text alone, truncated to milliseconds.
#[verifier::external_body]
pub fn parse_timestamp_rfc3339(s: &str) -> (r: Option<i64>)
    ensures
        r == rfc3339_parsed_of(s@),
{
    s.parse::<chrono::DateTime<chrono::Utc>>()
        .ok()
        .map(|t| t.timestamp_millis())
}

/// What chrono makes of a log-file timestamp in the
/// `%Y-%m-%d_%H-%M-%S.%6f` layout, taken as UTC, in milliseconds since the
/// epoch; None where the text does not parse. A function of the text alone.
pub uninterp spec fn log_stamp_parsed_of(s: Seq<char>) -> Option<i64>;

/// Relies on chrono's NaiveDateTime::parse_from_str with the
/// `%Y-%m-%d_%H-%M-%S.%6f` layout, whose result depends on the text alone.
#[verifier::external_body]
pub fn parse_log_timestamp(s: &str) -> (r: Option<i64>)
    ensures
        r == log_stamp_parsed_of(s@),
{
    chrono::NaiveDateTime::parse_from_str(s, "%Y-%m-%d_%H-%M-%S.%6f")
        .ok()
        .map(|t| t.and_utc().timestamp_millis())
}

/// The byte string that standard NFKC normalization followed by Unicode
/// lowercasing assigns to a text: the locale-insensitive key the display
/// sort orders names by. A function of the text alone.
pub uninterp spec fn sort_key_of(s: Seq<char>) -> Seq<u8>;

/// Relies on unicode-normalization's nfkc iterator and char::to_lowercase,
/// both functions of the characters alone.
#[verifier::external_body]
pub fn sort_key(s: &str) -> (r: Vec<u8>)
    ensures
        r@ == sort_key_of(s@),
{
    unicode_normalization::UnicodeNormalization::nfkc(s)
        .flat_map(|c| c.to_lowercase())
        .collect::<String>()
        .into_bytes()
}

/// The bytes of the Unicode-lowercased form of a text, a function of the
/// text alone.
pub uninterp spec fn lower_bytes_of(s: Seq<char>) -> Seq<u8>;

/// Relies on str::to_lowercase, whose result depends on the characters
/// alone.
#[verifier::external_body]
pub fn lower_bytes(s: &str) -> (r: Vec<u8>)
    ensures
        r@ == lower_bytes_of(s@),
{
    s.to_lowercase().into_bytes()
}

/// The percent-encoded form of a text, a function of the text alone.
pub uninterp spec fn url_encoded_of(s: Seq<char>) -> Seq<char>;

/// Relies on urlencoding::encode, whose result depends on the text alone.
#[verifier::external_body]
pub fn url_encoded(s: &str) -> (r: String)
    ensures
        r@ == url_encoded_of(s@),
{
    urlencoding::encode(s).into_owned()
}

} // verus!
